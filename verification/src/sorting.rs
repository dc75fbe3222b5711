//! Sorting task ids into ascending order without duplicates.
use vstd::prelude::*;

verus! {

/// Every element is smaller than each that follows it.
pub open spec fn strictly_increasing(s: Seq<u32>) -> bool {
    forall|i: int, j: int| 0 <= i < j < s.len() ==> s[i] < s[j]
}

/// The elements of a concatenation are those of its two halves.
pub proof fn lemma_to_set_add(a: Seq<u32>, b: Seq<u32>)
    ensures
        (a + b).to_set() == a.to_set() + b.to_set(),
{
    assert forall|x: u32| (a + b).to_set().contains(x) <==> (a.to_set() + b.to_set()).contains(x) by {
        if (a + b).contains(x) {
            let k = choose|k: int| 0 <= k < (a + b).len() && (a + b)[k] == x;
            if k < a.len() {
                assert(a[k] == x);
            } else {
                assert(b[k - a.len()] == x);
            }
        }
        if a.contains(x) {
            let k = choose|k: int| 0 <= k < a.len() && a[k] == x;
            assert((a + b)[k] == x);
        }
        if b.contains(x) {
            let k = choose|k: int| 0 <= k < b.len() && b[k] == x;
            assert((a + b)[a.len() + k] == x);
        }
    }
    assert((a + b).to_set() =~= a.to_set() + b.to_set());
}

/// Merges two strictly increasing sequences: the result holds each element of
/// either once, in ascending order.
pub fn merge_distinct(a: &Vec<u32>, b: &Vec<u32>) -> (r: Vec<u32>)
    requires
        strictly_increasing(a@),
        strictly_increasing(b@),
    ensures
        strictly_increasing(r@),
        r@.to_set() == a@.to_set() + b@.to_set(),
{
    let mut r: Vec<u32> = Vec::new();
    let mut i: usize = 0;
    let mut j: usize = 0;
    while i < a.len() || j < b.len()
        invariant
            i <= a.len(),
            j <= b.len(),
            strictly_increasing(a@),
            strictly_increasing(b@),
            strictly_increasing(r@),
            r@.to_set() == a@.take(i as int).to_set() + b@.take(j as int).to_set(),
            r@.len() > 0 && i < a.len() ==> r@.last() < a@[i as int],
            r@.len() > 0 && j < b.len() ==> r@.last() < b@[j as int],
        decreases a.len() - i + b.len() - j,
    {
        let ghost old_r = r@;
        let x: u32;
        if j == b.len() || (i < a.len() && a[i] < b[j]) {
            x = a[i];
            proof {
                assert(a@.take(i + 1) =~= a@.take(i as int).push(x));
                a@.take(i as int).lemma_push_to_set_commute(x);
            }
            i = i + 1;
        } else if i == a.len() || b[j] < a[i] {
            x = b[j];
            proof {
                assert(b@.take(j + 1) =~= b@.take(j as int).push(x));
                b@.take(j as int).lemma_push_to_set_commute(x);
            }
            j = j + 1;
        } else {
            x = a[i];
            proof {
                assert(a@.take(i + 1) =~= a@.take(i as int).push(x));
                a@.take(i as int).lemma_push_to_set_commute(x);
                assert(b@.take(j + 1) =~= b@.take(j as int).push(x));
                b@.take(j as int).lemma_push_to_set_commute(x);
            }
            i = i + 1;
            j = j + 1;
        }
        r.push(x);
        proof {
            old_r.lemma_push_to_set_commute(x);
            assert(r@.to_set() =~= a@.take(i as int).to_set() + b@.take(j as int).to_set());
        }
    }
    proof {
        assert(a@.take(i as int) =~= a@);
        assert(b@.take(j as int) =~= b@);
    }
    r
}

/// The elements of `v[lo..hi]`, ascending, each once.
pub fn sorted_distinct(v: &Vec<u32>, lo: usize, hi: usize) -> (r: Vec<u32>)
    requires
        lo <= hi <= v.len(),
    ensures
        strictly_increasing(r@),
        r@.to_set() == v@.subrange(lo as int, hi as int).to_set(),
    decreases hi - lo,
{
    if hi - lo == 0 {
        proof {
            assert(v@.subrange(lo as int, hi as int).to_set() =~= Set::<u32>::empty());
        }
        Vec::new()
    } else if hi - lo == 1 {
        let mut r: Vec<u32> = Vec::new();
        r.push(v[lo]);
        proof {
            assert(v@.subrange(lo as int, hi as int) =~= Seq::<u32>::empty().push(v@[lo as int]));
            assert(r@ =~= Seq::<u32>::empty().push(v@[lo as int]));
        }
        r
    } else {
        let mid = lo + (hi - lo) / 2;
        let left = sorted_distinct(v, lo, mid);
        let right = sorted_distinct(v, mid, hi);
        proof {
            assert(v@.subrange(lo as int, hi as int) =~= v@.subrange(lo as int, mid as int)
                + v@.subrange(mid as int, hi as int));
            lemma_to_set_add(v@.subrange(lo as int, mid as int), v@.subrange(mid as int, hi as int));
        }
        merge_distinct(&left, &right)
    }
}

} // verus!
