//! Text forms of a bit-vector: binary, octal, decimal and hexadecimal.
use vstd::prelude::*;

use crate::bitvector::ascii::{ascii_bits, ascii_four_state, ascii_two_state};
use crate::bitvector::{bit_or_zero, fits_inline, BitVector};
use crate::logic::{BitVectorRadix, Logic};

verus! {

/// `2` to the power `n`.
pub open spec fn exp2(n: nat) -> nat
    decreases n,
{
    if n == 0 {
        1
    } else {
        2 * exp2((n - 1) as nat)
    }
}

proof fn lemma_exp2_64()
    ensures
        exp2(64) == 0x1_0000_0000_0000_0000,
{
    reveal_with_fuel(exp2, 65);
}

proof fn lemma_exp2_monotonic(a: nat, b: nat)
    requires
        a <= b,
    ensures
        exp2(a) <= exp2(b),
    decreases b,
{
    if a < b {
        lemma_exp2_monotonic(a, (b - 1) as nat);
    }
}

/// The digit characters `0`-`9`, `A`-`F`.
pub open spec fn hex_digit(d: nat) -> char {
    seq!['0', '1', '2', '3', '4', '5', '6', '7', '8', '9', 'A', 'B', 'C', 'D', 'E', 'F'][d as int]
}

/// The number whose binary digits are the value bits of `bits[lo .. lo + n]`
/// (zero past the end), least significant first.
pub open spec fn group_value(bits: Seq<Logic>, lo: int, n: nat) -> nat
    decreases n,
{
    if n == 0 {
        0
    } else {
        group_value(bits, lo, (n - 1) as nat) + if bit_or_zero(bits, lo + n - 1).value_bit() {
            exp2((n - 1) as nat)
        } else {
            0
        }
    }
}

/// Whether any bit of `bits[lo .. lo + n]` is masked (`X` or `Z`).
pub open spec fn group_masked(bits: Seq<Logic>, lo: int, n: nat) -> bool {
    exists|j: int| lo <= j < lo + n && (#[trigger] bit_or_zero(bits, j)).mask_bit()
}

/// Whether every masked bit of `bits[lo .. lo + n]` is `Z`.
pub open spec fn group_all_z(bits: Seq<Logic>, lo: int, n: nat) -> bool {
    forall|j: int|
        lo <= j < lo + n && (#[trigger] bit_or_zero(bits, j)).mask_bit() ==> bit_or_zero(
            bits,
            j,
        ).value_bit()
}

/// The character of the digit for bits `lo .. lo + n`: `Z` when masked bits
/// are all `Z`, `X` when any is `X`, the digit of the value otherwise.
pub open spec fn group_char(bits: Seq<Logic>, lo: int, n: nat) -> char {
    if group_masked(bits, lo, n) {
        if group_all_z(bits, lo, n) {
            'Z'
        } else {
            'X'
        }
    } else {
        hex_digit(group_value(bits, lo, n))
    }
}

/// The digits of groups of `n` bits, the most significant group first.
pub open spec fn group_digits(bits: Seq<Logic>, n: nat) -> Seq<char> {
    let groups = (bits.len() + n - 1) / n as int;
    Seq::new(groups as nat, |k: int| group_char(bits, (groups - 1 - k) * n, n))
}

/// The decimal digits of `n`, most significant first.
pub open spec fn decimal_digits(n: nat) -> Seq<char>
    decreases n,
{
    if n < 10 {
        seq![hex_digit(n)]
    } else {
        decimal_digits(n / 10).push(hex_digit(n % 10))
    }
}

/// The text that stands for a value that does not fit in one word.
pub open spec fn overflow_text() -> Seq<char> {
    seq!['O', 'V', 'E', 'R', 'F', 'L', 'O', 'W', '!']
}

/// The decimal text: the digits of the value, or `Z`/`X` when masked, or
/// the overflow text when the value does not fit in one word.
pub open spec fn decimal_text(bits: Seq<Logic>, four_state: bool) -> Seq<char> {
    let n = bits.len() as nat;
    if !fits_inline(n, four_state) {
        overflow_text()
    } else if group_masked(bits, 0, n) {
        if group_all_z(bits, 0, n) {
            seq!['Z']
        } else {
            seq!['X']
        }
    } else {
        decimal_digits(group_value(bits, 0, n))
    }
}

/// The text of a value in a radix: the radix letter, then the digits, the
/// most significant first.
pub open spec fn radix_text(bits: Seq<Logic>, four_state: bool, radix: BitVectorRadix) -> Seq<
    char,
> {
    seq![radix.spec_char()] + match radix {
        BitVectorRadix::Binary => Seq::new(bits.len(), |k: int| bits[bits.len() - 1 - k].spec_char()),
        BitVectorRadix::Octal => group_digits(bits, 3),
        BitVectorRadix::Hexadecimal => group_digits(bits, 4),
        BitVectorRadix::Decimal => decimal_text(bits, four_state),
    }
}

/// The binary text of a value read from ASCII digits is the radix letter
/// followed by the digits, `x` and `z` written in upper case and any byte
/// other than a digit written as `0`.
pub proof fn lemma_ascii_binary_round_trip(bytes: Seq<u8>, four_state: bool)
    ensures
        radix_text(ascii_bits(bytes, four_state), four_state, BitVectorRadix::Binary) == seq!['b']
            + Seq::new(
            bytes.len(),
            |k: int|
                if four_state {
                    ascii_four_state(bytes[k]).spec_char()
                } else {
                    ascii_two_state(bytes[k]).spec_char()
                },
        ),
{
    let bits = ascii_bits(bytes, four_state);
    assert(Seq::new(bits.len(), |k: int| bits[bits.len() - 1 - k].spec_char()) =~= Seq::new(
        bytes.len(),
        |k: int|
            if four_state {
                ascii_four_state(bytes[k]).spec_char()
            } else {
                ascii_two_state(bytes[k]).spec_char()
            },
    ));
}

/// The character that an ASCII digit stands for: `0`, `1`, and `X`, `Z`
/// for either case.
pub open spec fn digit_char(b: u8) -> char {
    if b == 0x30 {
        '0'
    } else if b == 0x31 {
        '1'
    } else if b == 0x58 || b == 0x78 {
        'X'
    } else {
        'Z'
    }
}

/// Whether `b` is a digit of its flavor: `0`/`1`, or also `X`, `x`, `Z`,
/// `z` for four-state.
pub open spec fn is_ascii_digit(b: u8, four_state: bool) -> bool {
    b == 0x30 || b == 0x31 || (four_state && (b == 0x58 || b == 0x78 || b == 0x5A || b == 0x7A))
}

/// For a string of digits, the binary text is `b` followed by the string
/// itself, with `x` and `z` in upper case.
pub proof fn lemma_ascii_digits_binary_text(bytes: Seq<u8>, four_state: bool)
    requires
        forall|k: int| 0 <= k < bytes.len() ==> is_ascii_digit(#[trigger] bytes[k], four_state),
    ensures
        radix_text(ascii_bits(bytes, four_state), four_state, BitVectorRadix::Binary) == seq!['b']
            + bytes.map_values(|b: u8| digit_char(b)),
        radix_text(ascii_bits(bytes, four_state), four_state, BitVectorRadix::Binary).len()
            == bytes.len() + 1,
{
    lemma_ascii_binary_round_trip(bytes, four_state);
    assert(Seq::new(
        bytes.len(),
        |k: int|
            if four_state {
                ascii_four_state(bytes[k]).spec_char()
            } else {
                ascii_two_state(bytes[k]).spec_char()
            },
    ) =~= bytes.map_values(|b: u8| digit_char(b)));
}

/// Relies on `String::push`: appends one character.
#[verifier::external_body]
fn push_char(s: &mut String, c: char)
    ensures
        final(s)@ == old(s)@.push(c),
{
    s.push(c);
}

fn hex_char(d: u64) -> (r: char)
    requires
        d < 16,
    ensures
        r == hex_digit(d as nat),
{
    match d {
        0 => '0',
        1 => '1',
        2 => '2',
        3 => '3',
        4 => '4',
        5 => '5',
        6 => '6',
        7 => '7',
        8 => '8',
        9 => '9',
        10 => 'A',
        11 => 'B',
        12 => 'C',
        13 => 'D',
        14 => 'E',
        _ => 'F',
    }
}

fn logic_char(l: Logic) -> (r: char)
    ensures
        r == l.spec_char(),
{
    match l {
        Logic::Zero => '0',
        Logic::One => '1',
        Logic::Unknown => 'X',
        Logic::HighImpedance => 'Z',
    }
}

fn radix_char(radix: BitVectorRadix) -> (r: char)
    ensures
        r == radix.spec_char(),
{
    match radix {
        BitVectorRadix::Binary => 'b',
        BitVectorRadix::Octal => 'o',
        BitVectorRadix::Decimal => 'd',
        BitVectorRadix::Hexadecimal => 'h',
    }
}

/// Appends the decimal digits of `n`.
fn push_decimal(s: &mut String, n: u64)
    ensures
        final(s)@ == old(s)@ + decimal_digits(n as nat),
    decreases n,
{
    if n >= 10 {
        push_decimal(s, n / 10);
    }
    push_char(s, hex_char(n % 10));
}

impl BitVector {
    /// The digit for bits `lo .. lo + n`, bits past the width read as zero.
    fn group_digit(&self, lo: usize, n: usize) -> (r: char)
        requires
            lo < self@.len(),
            1 <= n <= 4,
        ensures
            r == group_char(self@, lo as int, n as nat),
    {
        let width = self.get_bit_width();
        let mut masked = false;
        let mut all_z = true;
        let mut value: u64 = 0;
        let mut weight: u64 = 1;
        let mut j: usize = 0;
        while j < n
            invariant
                j <= n <= 4,
                lo < width,
                width == self@.len(),
                weight == exp2(j as nat),
                value == group_value(self@, lo as int, j as nat),
                value < weight,
                masked == group_masked(self@, lo as int, j as nat),
                all_z == group_all_z(self@, lo as int, j as nat),
            decreases n - j,
        {
            proof {
                lemma_exp2_monotonic(j as nat, 3);
                reveal_with_fuel(exp2, 4);
            }
            let bit = if j < width - lo {
                self.get_bit(lo + j)
            } else {
                Logic::Zero
            };
            proof {
                assert(bit == bit_or_zero(self@, lo + j));
            }
            let (v, m) = bit.to_bool_pair();
            if m {
                masked = true;
                if !v {
                    all_z = false;
                }
            }
            if v {
                value = value + weight;
            }
            weight = weight * 2;
            j = j + 1;
            proof {
                let b = bit_or_zero(self@, lo + j - 1);
                assert(group_masked(self@, lo as int, j as nat) == (group_masked(
                    self@,
                    lo as int,
                    (j - 1) as nat,
                ) || b.mask_bit()));
                assert(group_all_z(self@, lo as int, j as nat) == (group_all_z(
                    self@,
                    lo as int,
                    (j - 1) as nat,
                ) && (b.mask_bit() ==> b.value_bit())));
            }
        }
        proof {
            lemma_exp2_monotonic(n as nat, 4);
            reveal_with_fuel(exp2, 5);
        }
        if masked {
            if all_z {
                'Z'
            } else {
                'X'
            }
        } else {
            hex_char(value)
        }
    }

    /// Appends the digits of groups of `n` bits, the most significant group
    /// first.
    fn push_groups(&self, s: &mut String, n: usize)
        requires
            n == 3 || n == 4,
        ensures
            final(s)@ == old(s)@ + group_digits(self@, n as nat),
    {
        let width = self.get_bit_width();
        let groups = if width % n == 0 {
            width / n
        } else {
            width / n + 1
        };
        let ghost start = s@;
        let ghost digits = group_digits(self@, n as nat);
        proof {
            assert(groups == (width + n - 1) / n as int) by (nonlinear_arith)
                requires
                    n >= 1,
                    width % n == 0 ==> groups == width / n,
                    width % n != 0 ==> groups == width / n + 1,
            ;
        }
        let mut k: usize = 0;
        while k < groups
            invariant
                k <= groups,
                groups == (width + n - 1) / n as int,
                width == self@.len(),
                n == 3 || n == 4,
                digits == group_digits(self@, n as nat),
                s@ == start + digits.subrange(0, k as int),
            decreases groups - k,
        {
            let lo = (groups - 1 - k) * n;
            proof {
                assert((groups - 1 - k) * n < width) by (nonlinear_arith)
                    requires
                        groups == (width + n - 1) / n as int,
                        k < groups,
                        n >= 1,
                ;
            }
            let c = self.group_digit(lo, n);
            push_char(s, c);
            k = k + 1;
            proof {
                assert(s@ =~= start + digits.subrange(0, k as int));
            }
        }
        proof {
            assert(digits.subrange(0, groups as int) =~= digits);
        }
    }

    /// The value bits as a number, for a value of at most 64 bits.
    fn small_value(&self) -> (r: u64)
        requires
            self@.len() <= 64,
        ensures
            r == group_value(self@, 0, self@.len()),
    {
        let width = self.get_bit_width();
        let mut value: u64 = 0;
        let mut weight: u64 = 1;
        let mut j: usize = 0;
        proof {
            lemma_exp2_64();
        }
        while j < width
            invariant
                j <= width <= 64,
                width == self@.len(),
                weight == exp2(j as nat) || (j == 64 && weight == 0),
                value == group_value(self@, 0, j as nat),
                value < exp2(j as nat),
                exp2(64) == 0x1_0000_0000_0000_0000,
            decreases width - j,
        {
            proof {
                lemma_exp2_monotonic(j as nat + 1, 64);
                if j < 63 {
                    lemma_exp2_monotonic(j as nat + 1, 63);
                }
            }
            if self.get_bit(j).to_bool_pair().0 {
                value = value + weight;
            }
            if j < 63 {
                weight = weight * 2;
            } else {
                weight = 0;
            }
            j = j + 1;
        }
        value
    }

    /// The value in the given radix: a leading radix letter, then the
    /// digits, the most significant first.
    pub fn to_string_radix(&self, radix: BitVectorRadix) -> (r: String)
        ensures
            r@ == radix_text(self@, self.spec_four_state(), radix),
    {
        let mut s = String::new();
        push_char(&mut s, radix_char(radix));
        let ghost start = s@;
        match radix {
            BitVectorRadix::Binary => {
                let width = self.get_bit_width();
                let mut i: usize = width;
                while i > 0
                    invariant
                        i <= width,
                        width == self@.len(),
                        s@ == start + Seq::new(
                            (width - i) as nat,
                            |k: int| self@[width - 1 - k].spec_char(),
                        ),
                    decreases i,
                {
                    i = i - 1;
                    push_char(&mut s, logic_char(self.get_bit(i)));
                    proof {
                        assert(s@ =~= start + Seq::new(
                            (width - i) as nat,
                            |k: int| self@[width - 1 - k].spec_char(),
                        ));
                    }
                }
            },
            BitVectorRadix::Octal => {
                self.push_groups(&mut s, 3);
            },
            BitVectorRadix::Hexadecimal => {
                self.push_groups(&mut s, 4);
            },
            BitVectorRadix::Decimal => {
                let width = self.get_bit_width();
                if self.is_pointer() {
                    push_char(&mut s, 'O');
                    push_char(&mut s, 'V');
                    push_char(&mut s, 'E');
                    push_char(&mut s, 'R');
                    push_char(&mut s, 'F');
                    push_char(&mut s, 'L');
                    push_char(&mut s, 'O');
                    push_char(&mut s, 'W');
                    push_char(&mut s, '!');
                } else if width > 0 && self.group_masked_all(width) {
                    if self.group_all_z_all(width) {
                        push_char(&mut s, 'Z');
                    } else {
                        push_char(&mut s, 'X');
                    }
                } else {
                    push_decimal(&mut s, self.small_value());
                }
            },
        }
        proof {
            assert(s@ =~= radix_text(self@, self.spec_four_state(), radix));
        }
        s
    }

    fn group_masked_all(&self, width: usize) -> (r: bool)
        requires
            width == self@.len(),
        ensures
            r == group_masked(self@, 0, width as nat),
    {
        let mut i: usize = 0;
        while i < width
            invariant
                i <= width,
                width == self@.len(),
                !group_masked(self@, 0, i as nat),
            decreases width - i,
        {
            if self.get_bit(i).to_bool_pair().1 {
                proof {
                    assert(bit_or_zero(self@, i as int).mask_bit());
                }
                return true;
            }
            i = i + 1;
        }
        false
    }

    fn group_all_z_all(&self, width: usize) -> (r: bool)
        requires
            width == self@.len(),
        ensures
            r == group_all_z(self@, 0, width as nat),
    {
        let mut i: usize = 0;
        while i < width
            invariant
                i <= width,
                width == self@.len(),
                group_all_z(self@, 0, i as nat),
            decreases width - i,
        {
            let (v, m) = self.get_bit(i).to_bool_pair();
            if m && !v {
                proof {
                    assert(bit_or_zero(self@, i as int).mask_bit());
                }
                return false;
            }
            i = i + 1;
        }
        true
    }
}

} // verus!
