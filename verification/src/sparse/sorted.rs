//! Ascending lists of indices without repetition.

use vstd::prelude::*;

verus! {

/// Whether each item of `s` is below the next.
pub open spec fn strictly_increasing(s: Seq<usize>) -> bool {
    forall|i: int, j: int| 0 <= i < j < s.len() ==> #[trigger] s[i] < #[trigger] s[j]
}

/// Two ascending lists without repetition that hold the same items are the
/// same list.
pub proof fn lemma_increasing_unique(a: Seq<usize>, b: Seq<usize>)
    requires
        strictly_increasing(a),
        strictly_increasing(b),
        forall|c: usize| #[trigger] a.contains(c) <==> b.contains(c),
    ensures
        a == b,
    decreases a.len(),
{
    if a.len() == 0 {
        if b.len() > 0 {
            assert(b.contains(b[0]));
            assert(a.contains(b[0]));
        }
        assert(a =~= b);
    } else {
        let x = a.last();
        assert(a.contains(x));
        assert(b.contains(x));
        let ib = choose|i: int| 0 <= i < b.len() && b[i] == x;
        // x is the greatest item of b, so it is its last
        if ib < b.len() - 1 {
            let y = b.last();
            assert(b[ib] < b[b.len() - 1]);
            assert(b.contains(y));
            assert(a.contains(y));
            let ia = choose|i: int| 0 <= i < a.len() && a[i] == y;
            if ia < a.len() - 1 {
                assert(a[ia] < a[a.len() - 1]);
            }
            assert(false);
        }
        let a0 = a.drop_last();
        let b0 = b.drop_last();
        assert forall|c: usize| #[trigger] a0.contains(c) <==> b0.contains(c) by {
            if a0.contains(c) {
                let i = choose|i: int| 0 <= i < a0.len() && a0[i] == c;
                assert(a[i] == c);
                assert(a[i] < a[a.len() - 1]);
                assert(a.contains(c));
                assert(b.contains(c));
                let j = choose|j: int| 0 <= j < b.len() && b[j] == c;
                assert(j < b.len() - 1);
                assert(b0[j] == c);
            }
            if b0.contains(c) {
                let i = choose|i: int| 0 <= i < b0.len() && b0[i] == c;
                assert(b[i] == c);
                assert(b[i] < b[b.len() - 1]);
                assert(b.contains(c));
                assert(a.contains(c));
                let j = choose|j: int| 0 <= j < a.len() && a[j] == c;
                assert(j < a.len() - 1);
                assert(a0[j] == c);
            }
        }
        lemma_increasing_unique(a0, b0);
        assert(a =~= a0.push(x));
        assert(b =~= b0.push(x));
    }
}

/// The number of items of the ascending list `v` that are below `c`.
pub(crate) fn lower_bound(v: &Vec<usize>, c: usize) -> (pos: usize)
    requires
        strictly_increasing(v@),
    ensures
        0 <= pos <= v@.len(),
        forall|i: int| 0 <= i < pos ==> v@[i] < c,
        forall|i: int| pos <= i < v@.len() ==> v@[i] >= c,
{
    let mut lo: usize = 0;
    let mut hi: usize = v.len();
    while lo < hi
        invariant
            0 <= lo <= hi <= v@.len(),
            strictly_increasing(v@),
            forall|i: int| 0 <= i < lo ==> v@[i] < c,
            forall|i: int| hi <= i < v@.len() ==> v@[i] >= c,
        decreases hi - lo,
    {
        let mid = lo + (hi - lo) / 2;
        if v[mid] < c {
            proof {
                assert forall|i: int| 0 <= i < mid + 1 implies v@[i] < c by {
                    if i < mid {
                        assert(v@[i] < v@[mid as int]);
                    }
                }
            }
            lo = mid + 1;
        } else {
            proof {
                assert forall|i: int| mid <= i < v@.len() implies v@[i] >= c by {
                    if i > mid {
                        assert(v@[mid as int] < v@[i]);
                    }
                }
            }
            hi = mid;
        }
    }
    lo
}

/// An item occurs among the first `i + 1` items of a list when it occurs
/// among the first `i` or is the next one.
pub(crate) proof fn lemma_take_contains(s: Seq<usize>, i: int, x: usize)
    requires
        0 <= i < s.len(),
    ensures
        s.take(i + 1).contains(x) <==> (s.take(i).contains(x) || s[i] == x),
{
    let head = s.take(i);
    let next = s.take(i + 1);
    if next.contains(x) {
        let k = choose|k: int| 0 <= k < next.len() && next[k] == x;
        if k < i {
            assert(head[k] == x);
        }
    }
    if head.contains(x) {
        let k = choose|k: int| 0 <= k < head.len() && head[k] == x;
        assert(next[k] == x);
    }
    if s[i] == x {
        assert(next[i] == x);
    }
}

/// An item occurs in a list with one more item at its end when it occurs in
/// the list or is that item.
pub(crate) proof fn lemma_push_contains(s: Seq<usize>, last: usize, x: usize)
    ensures
        s.push(last).contains(x) <==> (s.contains(x) || last == x),
{
    let t = s.push(last);
    if t.contains(x) {
        let k = choose|k: int| 0 <= k < t.len() && t[k] == x;
        if k < s.len() {
            assert(s[k] == x);
        }
    }
    if s.contains(x) {
        let k = choose|k: int| 0 <= k < s.len() && s[k] == x;
        assert(t[k] == x);
    }
    if last == x {
        assert(t[s.len() as int] == x);
    }
}

/// An item occurs in a run of a list when it occurs in the first or in the
/// second part of the run.
proof fn lemma_split_contains(s: Seq<usize>, lo: int, mid: int, hi: int, x: usize)
    requires
        0 <= lo <= mid <= hi <= s.len(),
    ensures
        s.subrange(lo, hi).contains(x) <==> (s.subrange(lo, mid).contains(x) || s.subrange(
            mid,
            hi,
        ).contains(x)),
{
    let whole = s.subrange(lo, hi);
    let left = s.subrange(lo, mid);
    let right = s.subrange(mid, hi);
    if whole.contains(x) {
        let k = choose|k: int| 0 <= k < whole.len() && whole[k] == x;
        if k < mid - lo {
            assert(left[k] == x);
        } else {
            assert(right[k - (mid - lo)] == x);
        }
    }
    if left.contains(x) {
        let k = choose|k: int| 0 <= k < left.len() && left[k] == x;
        assert(whole[k] == x);
    }
    if right.contains(x) {
        let k = choose|k: int| 0 <= k < right.len() && right[k] == x;
        assert(whole[k + (mid - lo)] == x);
    }
}

/// The items of two ascending lists without repetition as one such list.
fn merge_unique(a: &Vec<usize>, b: &Vec<usize>) -> (out: Vec<usize>)
    requires
        strictly_increasing(a@),
        strictly_increasing(b@),
    ensures
        strictly_increasing(out@),
        forall|x: usize| #[trigger] out@.contains(x) <==> (a@.contains(x) || b@.contains(x)),
{
    let mut out: Vec<usize> = Vec::new();
    let mut i: usize = 0;
    let mut j: usize = 0;
    while i < a.len() || j < b.len()
        invariant
            0 <= i <= a@.len(),
            0 <= j <= b@.len(),
            strictly_increasing(a@),
            strictly_increasing(b@),
            strictly_increasing(out@),
            forall|k: int| 0 <= k < out@.len() && i < a@.len() ==> #[trigger] out@[k] < a@[i as int],
            forall|k: int| 0 <= k < out@.len() && j < b@.len() ==> #[trigger] out@[k] < b@[j as int],
            forall|x: usize|
                #[trigger] out@.contains(x) <==> (a@.take(i as int).contains(x) || b@.take(
                    j as int,
                ).contains(x)),
        decreases (a@.len() - i) + (b@.len() - j),
    {
        let ghost before = out@;
        let ghost i0 = i as int;
        let ghost j0 = j as int;
        let take_a = j >= b.len() || (i < a.len() && a[i] <= b[j]);
        let take_b = i >= a.len() || (j < b.len() && b[j] <= a[i]);
        let item = if take_a {
            a[i]
        } else {
            b[j]
        };
        out.push(item);
        if take_a {
            i += 1;
        }
        if take_b {
            j += 1;
        }
        proof {
            assert forall|k: int, l: int| 0 <= k < l < out@.len() implies #[trigger] out@[k]
                < #[trigger] out@[l] by {
                if l < before.len() {
                    assert(before[k] < before[l]);
                } else {
                    assert(out@[k] == before[k]);
                }
            }
            assert forall|k: int| 0 <= k < out@.len() && i < a@.len() implies #[trigger] out@[k]
                < a@[i as int] by {
                if take_a {
                    assert(a@[i0] < a@[i as int]);
                }
                if k < before.len() {
                    assert(out@[k] == before[k]);
                }
            }
            assert forall|k: int| 0 <= k < out@.len() && j < b@.len() implies #[trigger] out@[k]
                < b@[j as int] by {
                if take_b {
                    assert(b@[j0] < b@[j as int]);
                }
                if k < before.len() {
                    assert(out@[k] == before[k]);
                }
            }
            assert forall|x: usize| #[trigger]
                out@.contains(x) <==> (a@.take(i as int).contains(x) || b@.take(
                    j as int,
                ).contains(x)) by {
                lemma_push_contains(before, item, x);
                assert(out@ =~= before.push(item));
                if take_a {
                    lemma_take_contains(a@, i0, x);
                }
                if take_b {
                    lemma_take_contains(b@, j0, x);
                }
                assert(before.contains(x) <==> (a@.take(i0).contains(x) || b@.take(
                    j0,
                ).contains(x)));
            }
        }
    }
    proof {
        assert(a@.take(i as int) =~= a@);
        assert(b@.take(j as int) =~= b@);
    }
    out
}

/// The different items among `v[lo .. hi]`, in ascending order.
pub(crate) fn sorted_unique(v: &Vec<usize>, lo: usize, hi: usize) -> (out: Vec<usize>)
    requires
        lo <= hi <= v@.len(),
    ensures
        strictly_increasing(out@),
        forall|x: usize|
            #[trigger] out@.contains(x) <==> v@.subrange(lo as int, hi as int).contains(x),
    decreases hi - lo,
{
    if hi - lo == 0 {
        let out: Vec<usize> = Vec::new();
        proof {
            assert forall|x: usize| #[trigger]
                out@.contains(x) <==> v@.subrange(lo as int, hi as int).contains(x) by {}
        }
        out
    } else if hi - lo == 1 {
        let mut out: Vec<usize> = Vec::new();
        out.push(v[lo]);
        proof {
            let run = v@.subrange(lo as int, hi as int);
            assert forall|x: usize| #[trigger] out@.contains(x) <==> run.contains(x) by {
                if out@.contains(x) {
                    assert(run[0] == x);
                }
                if run.contains(x) {
                    assert(out@[0] == x);
                }
            }
        }
        out
    } else {
        let mid = lo + (hi - lo) / 2;
        let left = sorted_unique(v, lo, mid);
        let right = sorted_unique(v, mid, hi);
        let out = merge_unique(&left, &right);
        proof {
            assert forall|x: usize| #[trigger]
                out@.contains(x) <==> v@.subrange(lo as int, hi as int).contains(x) by {
                lemma_split_contains(v@, lo as int, mid as int, hi as int, x);
            }
        }
        out
    }
}

} // verus!
