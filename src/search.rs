//! What a timestamp search returns: the meaning of the search modes over a
//! sorted sequence, stated as linear scans.
use vstd::prelude::*;

verus! {

/// How a search treats a timestamp that no entry has.
#[derive(Clone, Copy, Debug, PartialEq, Eq, Structural)]
pub enum WaveformSearchMode {
    /// The last entry at or before the timestamp.
    Before,
    /// The first entry at or after the timestamp.
    After,
    /// The nearer of those two; the earlier one on a tie.
    Closest,
    /// Only an entry at the timestamp.
    Exact,
}

/// Position of the last entry at or before `t`, scanning from the end.
pub open spec fn scan_before(s: Seq<int>, t: int) -> Option<int>
    decreases s.len(),
{
    if s.len() == 0 {
        None
    } else if s.last() <= t {
        Some(s.len() - 1)
    } else {
        scan_before(s.drop_last(), t)
    }
}

/// Position of the first entry at or after `t`, scanning from the start.
pub open spec fn scan_after(s: Seq<int>, t: int) -> Option<int>
    decreases s.len(),
{
    if s.len() == 0 {
        None
    } else if s[0] >= t {
        Some(0)
    } else {
        match scan_after(s.drop_first(), t) {
            Some(p) => Some(p + 1),
            None => None,
        }
    }
}

/// Position of the first entry at `t`.
pub open spec fn scan_exact(s: Seq<int>, t: int) -> Option<int>
    decreases s.len(),
{
    if s.len() == 0 {
        None
    } else if s[0] == t {
        Some(0)
    } else {
        match scan_exact(s.drop_first(), t) {
            Some(p) => Some(p + 1),
            None => None,
        }
    }
}

/// The position a search for `t` in `s` returns.
pub open spec fn search_position(s: Seq<int>, t: int, mode: WaveformSearchMode) -> Option<int> {
    match mode {
        WaveformSearchMode::Before => scan_before(s, t),
        WaveformSearchMode::After => scan_after(s, t),
        WaveformSearchMode::Exact => scan_exact(s, t),
        WaveformSearchMode::Closest => match (scan_before(s, t), scan_after(s, t)) {
            (Some(b), Some(a)) => if s[a] - t < t - s[b] {
                Some(a)
            } else {
                Some(b)
            },
            (Some(b), None) => Some(b),
            (None, a) => a,
        },
    }
}

/// Strictly increasing.
pub open spec fn is_sorted(s: Seq<int>) -> bool {
    forall|i: int, j: int| 0 <= i < j < s.len() ==> s[i] < s[j]
}

/// In a sorted sequence, the search finds the position `p` that ends the
/// entries at or before `t`: the entries at `p` and before are at or before
/// `t`, the ones after are after it. `p == -1` when none is.
pub proof fn lemma_search_at(s: Seq<int>, t: int, p: int)
    requires
        is_sorted(s),
        -1 <= p < s.len(),
        p >= 0 ==> s[p] <= t,
        p + 1 < s.len() ==> s[p + 1] > t,
    ensures
        scan_before(s, t) == if p >= 0 {
            Some(p)
        } else {
            None::<int>
        },
        scan_after(s, t) == if p >= 0 && s[p] == t {
            Some(p)
        } else if p + 1 < s.len() {
            Some(p + 1)
        } else {
            None::<int>
        },
        scan_exact(s, t) == if p >= 0 && s[p] == t {
            Some(p)
        } else {
            None::<int>
        },
{
    lemma_scan_before(s, t, p);
    lemma_scan_forward(s, t, p);
}

proof fn lemma_scan_before(s: Seq<int>, t: int, p: int)
    requires
        is_sorted(s),
        -1 <= p < s.len(),
        p >= 0 ==> s[p] <= t,
        p + 1 < s.len() ==> s[p + 1] > t,
    ensures
        scan_before(s, t) == if p >= 0 {
            Some(p)
        } else {
            None::<int>
        },
    decreases s.len(),
{
    if s.len() > 0 && p < s.len() - 1 {
        assert(s.last() > t) by {
            if p + 1 < s.len() - 1 {
                assert(s[p + 1] < s[s.len() - 1]);
            }
        }
        lemma_scan_before(s.drop_last(), t, p);
    }
}

proof fn lemma_scan_forward(s: Seq<int>, t: int, p: int)
    requires
        is_sorted(s),
        -1 <= p < s.len(),
        p >= 0 ==> s[p] <= t,
        p + 1 < s.len() ==> s[p + 1] > t,
    ensures
        scan_after(s, t) == if p >= 0 && s[p] == t {
            Some(p)
        } else if p + 1 < s.len() {
            Some(p + 1)
        } else {
            None::<int>
        },
        scan_exact(s, t) == if p >= 0 && s[p] == t {
            Some(p)
        } else {
            None::<int>
        },
    decreases s.len(),
{
    if s.len() > 0 {
        if p >= 0 && s[0] < t {
            assert(s[0] < t) by {
                if p > 0 {
                    assert(s[0] < s[p]);
                }
            }
            lemma_scan_forward(s.drop_first(), t, p - 1);
        } else if p >= 0 {
            assert(s[0] == t) by {
                if p > 0 {
                    assert(s[0] < s[p]);
                }
            }
            assert(p == 0) by {
                if p > 0 {
                    assert(s[0] < s[p]);
                }
            }
        } else {
            assert(s[0] > t);
            if s.len() > 1 {
                assert(s[1] > s[0]);
            }
            lemma_scan_forward(s.drop_first(), t, -1);
        }
    }
}

} // verus!
