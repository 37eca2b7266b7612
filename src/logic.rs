//! Single-bit values: the four-state `Logic` and the two-state `Bit`.
use vstd::prelude::*;

verus! {

/// How a bit-vector is printed: the variant's letter leads the text.
#[derive(Clone, Copy, PartialEq, Eq, Debug, Structural)]
pub enum BitVectorRadix {
    Binary,
    Octal,
    Decimal,
    Hexadecimal,
}

impl BitVectorRadix {
    /// The letter that leads a formatted value.
    pub open spec fn spec_char(self) -> char {
        match self {
            BitVectorRadix::Binary => 'b',
            BitVectorRadix::Octal => 'o',
            BitVectorRadix::Decimal => 'd',
            BitVectorRadix::Hexadecimal => 'h',
        }
    }

    pub fn to_str(&self) -> (r: &'static str)
        ensures
            r@ == seq![self.spec_char()],
    {
        proof {
            reveal_strlit("b");
            reveal_strlit("o");
            reveal_strlit("d");
            reveal_strlit("h");
        }
        match self {
            BitVectorRadix::Binary => "b",
            BitVectorRadix::Octal => "o",
            BitVectorRadix::Decimal => "d",
            BitVectorRadix::Hexadecimal => "h",
        }
    }
}

/// A four-state digital value.
#[derive(Clone, Copy, PartialEq, Eq, Debug, Structural)]
pub enum Logic {
    Zero,
    One,
    Unknown,
    HighImpedance,
}

/// The logic value with the given `(value, mask)` encoding.
pub open spec fn logic_of_pair(value: bool, mask: bool) -> Logic {
    match (value, mask) {
        (false, false) => Logic::Zero,
        (true, false) => Logic::One,
        (false, true) => Logic::Unknown,
        (true, true) => Logic::HighImpedance,
    }
}

impl Logic {
    /// The value bit of the canonical `(value, mask)` encoding.
    pub open spec fn value_bit(self) -> bool {
        self == Logic::One || self == Logic::HighImpedance
    }

    /// The mask bit of the canonical `(value, mask)` encoding.
    pub open spec fn mask_bit(self) -> bool {
        self == Logic::Unknown || self == Logic::HighImpedance
    }

    pub open spec fn spec_is_two_state(self) -> bool {
        self == Logic::Zero || self == Logic::One
    }

    /// The projection onto two states: anything but `One` becomes `Zero`.
    pub open spec fn two_state(self) -> Logic {
        if self == Logic::One {
            Logic::One
        } else {
            Logic::Zero
        }
    }

    /// The character that prints this value.
    pub open spec fn spec_char(self) -> char {
        match self {
            Logic::Zero => '0',
            Logic::One => '1',
            Logic::Unknown => 'X',
            Logic::HighImpedance => 'Z',
        }
    }

    pub fn is_two_state(&self) -> (r: bool)
        ensures
            r == self.spec_is_two_state(),
    {
        match self {
            Logic::Zero | Logic::One => true,
            _ => false,
        }
    }

    pub fn to_bool_pair(&self) -> (r: (bool, bool))
        ensures
            r == (self.value_bit(), self.mask_bit()),
    {
        match self {
            Logic::Zero => (false, false),
            Logic::One => (true, false),
            Logic::Unknown => (false, true),
            Logic::HighImpedance => (true, true),
        }
    }

    pub fn to_str(&self) -> (r: &'static str)
        ensures
            r@ == seq![self.spec_char()],
    {
        proof {
            reveal_strlit("0");
            reveal_strlit("1");
            reveal_strlit("X");
            reveal_strlit("Z");
        }
        match self {
            Logic::Zero => "0",
            Logic::One => "1",
            Logic::Unknown => "X",
            Logic::HighImpedance => "Z",
        }
    }
}

/// A two-state digital value.
#[derive(Clone, Copy, PartialEq, Eq, Debug, Structural)]
pub enum Bit {
    Zero,
    One,
}

impl Bit {
    pub fn to_str(&self) -> (r: &'static str)
        ensures
            r@ == seq![if *self == Bit::One { '1' } else { '0' }],
    {
        proof {
            reveal_strlit("0");
            reveal_strlit("1");
        }
        match self {
            Bit::Zero => "0",
            Bit::One => "1",
        }
    }
}

impl From<Bit> for Logic {
    fn from(value: Bit) -> (r: Logic) {
        match value {
            Bit::Zero => Logic::Zero,
            Bit::One => Logic::One,
        }
    }
}

impl vstd::std_specs::convert::FromSpecImpl<Bit> for Logic {
    open spec fn obeys_from_spec() -> bool {
        true
    }

    open spec fn from_spec(v: Bit) -> Logic {
        if v == Bit::One {
            Logic::One
        } else {
            Logic::Zero
        }
    }
}

impl From<Bit> for bool {
    fn from(value: Bit) -> (r: bool) {
        match value {
            Bit::Zero => false,
            Bit::One => true,
        }
    }
}

impl vstd::std_specs::convert::FromSpecImpl<Bit> for bool {
    open spec fn obeys_from_spec() -> bool {
        true
    }

    open spec fn from_spec(v: Bit) -> bool {
        v == Bit::One
    }
}

impl From<Logic> for bool {
    fn from(value: Logic) -> (r: bool) {
        match value {
            Logic::One => true,
            _ => false,
        }
    }
}

impl vstd::std_specs::convert::FromSpecImpl<Logic> for bool {
    open spec fn obeys_from_spec() -> bool {
        true
    }

    open spec fn from_spec(v: Logic) -> bool {
        v == Logic::One
    }
}

impl From<Logic> for Bit {
    fn from(value: Logic) -> (r: Bit) {
        match value {
            Logic::One => Bit::One,
            _ => Bit::Zero,
        }
    }
}

impl vstd::std_specs::convert::FromSpecImpl<Logic> for Bit {
    open spec fn obeys_from_spec() -> bool {
        true
    }

    open spec fn from_spec(v: Logic) -> Bit {
        if v == Logic::One {
            Bit::One
        } else {
            Bit::Zero
        }
    }
}

impl From<(bool, bool)> for Logic {
    fn from(value: (bool, bool)) -> (r: Logic) {
        match value {
            (false, false) => Logic::Zero,
            (true, false) => Logic::One,
            (false, true) => Logic::Unknown,
            (true, true) => Logic::HighImpedance,
        }
    }
}

impl vstd::std_specs::convert::FromSpecImpl<(bool, bool)> for Logic {
    open spec fn obeys_from_spec() -> bool {
        true
    }

    open spec fn from_spec(v: (bool, bool)) -> Logic {
        logic_of_pair(v.0, v.1)
    }
}

impl From<bool> for Logic {
    fn from(value: bool) -> (r: Logic) {
        if value {
            Logic::One
        } else {
            Logic::Zero
        }
    }
}

impl vstd::std_specs::convert::FromSpecImpl<bool> for Logic {
    open spec fn obeys_from_spec() -> bool {
        true
    }

    open spec fn from_spec(v: bool) -> Logic {
        logic_of_pair(v, false)
    }
}

impl From<(usize, usize)> for Logic {
    fn from(value: (usize, usize)) -> (r: Logic) {
        logic_from_pair(value.0 != 0, value.1 != 0)
    }
}

impl vstd::std_specs::convert::FromSpecImpl<(usize, usize)> for Logic {
    open spec fn obeys_from_spec() -> bool {
        true
    }

    open spec fn from_spec(v: (usize, usize)) -> Logic {
        logic_of_pair(v.0 != 0, v.1 != 0)
    }
}

impl From<bool> for Bit {
    fn from(value: bool) -> (r: Bit) {
        if value {
            Bit::One
        } else {
            Bit::Zero
        }
    }
}

impl vstd::std_specs::convert::FromSpecImpl<bool> for Bit {
    open spec fn obeys_from_spec() -> bool {
        true
    }

    open spec fn from_spec(v: bool) -> Bit {
        if v {
            Bit::One
        } else {
            Bit::Zero
        }
    }
}

impl From<usize> for Bit {
    fn from(value: usize) -> (r: Bit) {
        if value != 0 {
            Bit::One
        } else {
            Bit::Zero
        }
    }
}

impl vstd::std_specs::convert::FromSpecImpl<usize> for Bit {
    open spec fn obeys_from_spec() -> bool {
        true
    }

    open spec fn from_spec(v: usize) -> Bit {
        if v != 0 {
            Bit::One
        } else {
            Bit::Zero
        }
    }
}

/// The logic value with the given `(value, mask)` encoding.
pub fn logic_from_pair(value: bool, mask: bool) -> (r: Logic)
    ensures
        r == logic_of_pair(value, mask),
{
    match (value, mask) {
        (false, false) => Logic::Zero,
        (true, false) => Logic::One,
        (false, true) => Logic::Unknown,
        (true, true) => Logic::HighImpedance,
    }
}

/// Encoding a logic value as its `(value, mask)` pair and decoding the pair
/// gives back the same value.
pub proof fn lemma_logic_pair_round_trip(l: Logic)
    ensures
        logic_of_pair(l.value_bit(), l.mask_bit()) == l,
        <Logic as vstd::std_specs::convert::FromSpec<(bool, bool)>>::from_spec(
            (l.value_bit(), l.mask_bit()),
        ) == l,
{
}

} // verus!
