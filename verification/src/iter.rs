use vstd::prelude::*;

use crate::page::{strictly_increasing, PageIdx};

verus! {

/// The sequence never decreases.
pub open spec fn sorted(s: Seq<u32>) -> bool {
    forall|i: int, j: int| 0 <= i <= j < s.len() ==> s[i] <= s[j]
}

/// Some value occurs in both sequences.
pub open spec fn share_value(a: Seq<u32>, b: Seq<u32>) -> bool {
    exists|i: int, j: int| 0 <= i < a.len() && 0 <= j < b.len() && a[i] == b[j]
}

/// has_sorted_intersection returns true if the two sequences have an intersection
/// requires that both sequences are sorted
pub fn has_sorted_intersection(a: &[u32], b: &[u32]) -> (r: bool)
    ensures
        r ==> share_value(a@, b@),
        sorted(a@) && sorted(b@) ==> (r <==> share_value(a@, b@)),
{
    let mut i: usize = 0;
    let mut j: usize = 0;
    while i < a.len() && j < b.len()
        invariant
            0 <= i <= a.len(),
            0 <= j <= b.len(),
            sorted(a@) && sorted(b@) ==> forall|x: int, y: int|
                0 <= x < a.len() && 0 <= y < b.len() && a@[x] == b@[y] ==> i <= x && j <= y,
        decreases a.len() - i + b.len() - j,
    {
        let a_cur = a[i];
        let b_cur = b[j];
        if a_cur == b_cur {
            assert(a@[i as int] == b@[j as int]);
            return true;
        }
        if a_cur < b_cur {
            i = i + 1;
        } else {
            j = j + 1;
        }
    }
    false
}

/// Inserts `x` into the strictly increasing `v`, keeping it so.
pub(crate) fn sorted_insert(v: &mut Vec<PageIdx>, x: PageIdx)
    requires
        strictly_increasing(old(v)@),
    ensures
        strictly_increasing(final(v)@),
        final(v)@.to_set() == old(v)@.to_set().insert(x),
{
    let mut i: usize = 0;
    while i < v.len() && v[i] < x
        invariant
            0 <= i <= v@.len(),
            strictly_increasing(v@),
            forall|t: int| 0 <= t < i ==> v@[t] < x,
        decreases v@.len() - i,
    {
        i = i + 1;
    }
    if i < v.len() && v[i] == x {
        proof {
            assert(v@.to_set() =~= v@.to_set().insert(x));
        }
        return;
    }
    let ghost before = v@;
    v.insert(i, x);
    proof {
        assert(v@ =~= before.subrange(0, i as int).push(x) + before.subrange(i as int, before.len() as int));
        assert forall|a: int, b: int| 0 <= a < b < v@.len() implies v@[a] < v@[b] by {
            if b < i {
            } else if a < i && b == i {
            } else if a < i {
                assert(v@[b] == before[b - 1]);
                assert(before[a] < x);
                assert(x < before[i as int] || before[i as int] == before[b - 1] || before[i as int] < before[b - 1]);
            } else if a == i {
                assert(v@[b] == before[b - 1]);
                assert(before[i as int] > x);
            } else {
                assert(v@[a] == before[a - 1]);
                assert(v@[b] == before[b - 1]);
            }
        }
        assert(v@.to_set() =~= before.to_set().insert(x)) by {
            assert forall|y: PageIdx| v@.to_set().contains(y) implies before.to_set().insert(x).contains(y) by {
                let t = choose|t: int| 0 <= t < v@.len() && v@[t] == y;
                if t < i {
                    assert(before[t] == y);
                } else if t > i {
                    assert(before[t - 1] == y);
                }
            }
            assert forall|y: PageIdx| before.to_set().insert(x).contains(y) implies v@.to_set().contains(y) by {
                if y == x {
                    assert(v@[i as int] == x);
                } else {
                    let t = choose|t: int| 0 <= t < before.len() && before[t] == y;
                    if t < i {
                        assert(v@[t] == y);
                    } else {
                        assert(v@[t + 1] == y);
                    }
                }
            }
        }
    }
}

} // verus!
