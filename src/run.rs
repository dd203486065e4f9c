use vstd::prelude::*;

use crate::error::Error;
use crate::snapshots::{
    latest_with_hash, Snapshot, SnapshotHash, SnapshotHistory, SnapshotView,
};
use crate::text::chars_of;

verus! {

pub open spec fn is_digit(c: char) -> bool {
    48 <= (c as u32) && (c as u32) <= 57
}

/// The number that the decimal digits `s` write.
pub open spec fn digits_value(s: Seq<char>) -> int
    decreases s.len(),
{
    if s.len() == 0 {
        0
    } else {
        digits_value(s.drop_last()) * 10 + ((s.last() as u32) - 48)
    }
}

/// `s` without a leading `+`.
pub open spec fn unsigned_part(s: Seq<char>) -> Seq<char> {
    if s.len() > 0 && s[0] == '+' {
        s.drop_first()
    } else {
        s
    }
}

pub open spec fn all_digits(s: Seq<char>) -> bool {
    forall|i: int| 0 <= i < s.len() ==> is_digit(#[trigger] s[i])
}

/// What parsing `s` as a `usize` gives: an optional `+`, then one or more
/// decimal digits whose value fits.
pub open spec fn index_value(s: Seq<char>) -> Option<int> {
    let d = unsigned_part(s);
    if d.len() > 0 && all_digits(d) && digits_value(d) <= usize::MAX {
        Some(digits_value(d))
    } else {
        None
    }
}

proof fn lemma_digits_nonneg(s: Seq<char>)
    requires
        forall|i: int| 0 <= i < s.len() ==> is_digit(#[trigger] s[i]),
    ensures
        digits_value(s) >= 0,
    decreases s.len(),
{
    if s.len() > 0 {
        let d = s.drop_last();
        assert forall|i: int| 0 <= i < d.len() implies is_digit(#[trigger] d[i]) by {
            assert(d[i] == s[i]);
        }
        lemma_digits_nonneg(d);
        assert(is_digit(s[s.len() - 1]));
    }
}

/// Parses a snapshot index the way `str::parse::<usize>` does.
pub fn parse_index(s: &str) -> (r: Option<usize>)
    ensures
        r matches Some(v) ==> index_value(s@) == Some(v as int),
        r is None ==> index_value(s@) is None,
{
    let m = chars_of(s);
    let n = m.len();
    let start: usize = if n > 0 && m[0] == '+' {
        1
    } else {
        0
    };
    let ghost d = if m@.len() > 0 && m@[0] == '+' {
        m@.drop_first()
    } else {
        m@
    };
    assert(d =~= m@.subrange(start as int, n as int));
    if start >= n {
        return None;
    }
    let mut value: usize = 0;
    let mut overflow = false;
    let mut i = start;
    proof {
        assert(m@.subrange(start as int, start as int) =~= seq![]);
    }
    while i < n
        invariant
            n == m.len(),
            m@ == s@,
            d == unsigned_part(s@),
            start <= i <= n,
            d == m@.subrange(start as int, n as int),
            forall|j: int| start <= j < i ==> is_digit(#[trigger] m@[j]),
            !overflow ==> value == digits_value(m@.subrange(start as int, i as int)),
            overflow ==> digits_value(m@.subrange(start as int, i as int)) > usize::MAX,
        decreases n - i,
    {
        let c = m[i] as u32;
        if !(48 <= c && c <= 57) {
            proof {
                assert(d[i - start] == m@[i as int]);
                assert(!is_digit(d[i - start]));
                assert(m@ == s@);
                assert(!all_digits(d));
            }
            return None;
        }
        let dig = (c - 48) as usize;
        let ghost pre = m@.subrange(start as int, i as int);
        let ghost post = m@.subrange(start as int, i + 1);
        proof {
            assert(post.drop_last() =~= pre);
            assert(digits_value(post) == digits_value(pre) * 10 + dig);
            assert forall|j: int| 0 <= j < pre.len() implies is_digit(#[trigger] pre[j]) by {
                assert(pre[j] == m@[start + j]);
            }
            lemma_digits_nonneg(pre);
        }
        if !overflow {
            if value > (usize::MAX - dig) / 10 {
                overflow = true;
                proof {
                    let v = value as int;
                    let g = dig as int;
                    assert(v * 10 + g > usize::MAX) by (nonlinear_arith)
                        requires
                            v > (usize::MAX - g) / 10,
                            0 <= g <= 9,
                    ;
                }
            } else {
                proof {
                    let v = value as int;
                    let g = dig as int;
                    assert(v * 10 + g <= usize::MAX) by (nonlinear_arith)
                        requires
                            v <= (usize::MAX - g) / 10,
                            0 <= g <= 9,
                    ;
                }
                value = value * 10 + dig;
            }
        } else {
            proof {
                let v = digits_value(pre);
                assert(v * 10 + dig >= v) by (nonlinear_arith)
                    requires
                        v >= 0,
                ;
            }
        }
        i = i + 1;
    }
    proof {
        assert(m@.subrange(start as int, n as int) == d);
        assert forall|j: int| 0 <= j < d.len() implies is_digit(#[trigger] d[j]) by {
            assert(d[j] == m@[start + j]);
        }
        assert(all_digits(d));
    }
    if overflow {
        None
    } else {
        Some(value)
    }
}

/// Position in `h` of the snapshot that reference `t` names, or -1: an
/// index counts back from the most recent snapshot, any other text is a hash.
pub open spec fn reference_target(h: Seq<SnapshotView>, t: Seq<char>) -> int {
    match index_value(t) {
        Some(i) => if i < h.len() {
            h.len() - 1 - i
        } else {
            -1
        },
        None => latest_with_hash(h, t),
    }
}

/// The snapshot whose heads bound this run's walks: none when state is not
/// used, the one that `reference` names when there is one, else the most
/// recent. A reference that names no snapshot is a `SnapshotDoesntExist`
/// error.
pub fn starting_snapshot(history: &SnapshotHistory, no_state: bool, reference: Option<&str>) -> (r:
    Result<Option<Snapshot>, Error>)
    requires
        history.wf(),
    ensures
        no_state ==> r matches Ok(None),
        !no_state && reference is None && history@.len() == 0 ==> r matches Ok(None),
        !no_state && reference is None && history@.len() > 0 ==> (r matches Ok(Some(s)) && s.wf()
            && s@ == history@.last()),
        !no_state && reference is Some ==> ({
            let t = reference->Some_0;
            &&& reference_target(history@, t@) >= 0 ==> (r matches Ok(Some(s)) && s.wf() && s@
                == history@[reference_target(history@, t@)])
            &&& reference_target(history@, t@) < 0 ==> (r matches Err(
                Error::SnapshotDoesntExist(m),
            ) && m@ == t@)
        }),
{
    if no_state {
        return Ok(None);
    }
    match reference {
        None => match history.last() {
            Some(s) => Ok(Some(s.duplicate())),
            None => Ok(None),
        },
        Some(t) => {
            let found = match parse_index(t) {
                Some(index) => history.get_by_index(index),
                None => history.get_by_hash(&SnapshotHash::new(t.to_owned())),
            };
            match found {
                Some(s) => Ok(Some(s.duplicate())),
                None => Err(Error::SnapshotDoesntExist(t.to_owned())),
            }
        },
    }
}

} // verus!
