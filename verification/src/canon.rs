//! Canonical (sorted, duplicate-free) forms of small integer-keyed collections.
use vstd::prelude::*;

verus! {

pub open spec fn strictly_increasing_u32(s: Seq<u32>) -> bool {
    forall|i: int, j: int| 0 <= i < j < s.len() ==> s[i] < s[j]
}

/// The sorted, duplicate-free sequence holding the values of `v`.
pub fn sorted_unique_u32(v: &[u32]) -> (out: Vec<u32>)
    ensures
        strictly_increasing_u32(out@),
        forall|x: u32| out@.contains(x) <==> v@.contains(x),
{
    let mut out: Vec<u32> = Vec::new();
    let mut i: usize = 0;
    while i < v.len()
        invariant
            0 <= i <= v@.len(),
            strictly_increasing_u32(out@),
            forall|x: u32| out@.contains(x) <==> v@.take(i as int).contains(x),
        decreases v@.len() - i,
    {
        let x = v[i];
        let mut p: usize = 0;
        while p < out.len() && out[p] < x
            invariant
                0 <= p <= out@.len(),
                strictly_increasing_u32(out@),
                forall|t: int| 0 <= t < p ==> out@[t] < x,
                forall|y: u32| out@.contains(y) <==> v@.take(i as int).contains(y),
            decreases out@.len() - p,
        {
            p = p + 1;
        }
        let ghost before = out@;
        if p < out.len() && out[p] == x {
        } else {
            out.insert(p, x);
            proof {
                assert forall|a: int, b: int| 0 <= a < b < out@.len() implies out@[a] < out@[b] by {
                    if a < p as int && b < p as int {
                        assert(out@[a] == before[a] && out@[b] == before[b]);
                    } else if a < p as int && b == p as int {
                        assert(out@[a] == before[a]);
                    } else if a < p as int {
                        assert(out@[a] == before[a] && out@[b] == before[b - 1]);
                    } else if a == p as int {
                        assert(out@[b] == before[b - 1]);
                        if p < before.len() {
                            assert(before[p as int] >= x);
                            assert(before[p as int] != x);
                            if b - 1 > p as int {
                                assert(before[p as int] < before[b - 1]);
                            }
                        }
                    } else {
                        assert(out@[a] == before[a - 1] && out@[b] == before[b - 1]);
                    }
                }
            }
        }
        proof {
            let vi1 = v@.take((i + 1) as int);
            let vi = v@.take(i as int);
            assert(vi1 == vi.push(x));
            assert forall|y: u32| out@.contains(y) <==> vi1.contains(y) by {
                if out@.contains(y) {
                    let t = choose|t: int| 0 <= t < out@.len() && out@[t] == y;
                    if y != x {
                        if out@.len() == before.len() {
                            assert(before.contains(y));
                        } else if t < p as int {
                            assert(before[t] == y);
                        } else {
                            assert(t != p as int);
                            assert(before[t - 1] == y);
                        }
                        assert(before.contains(y));
                        assert(vi.contains(y));
                        let s = choose|s: int| 0 <= s < vi.len() && vi[s] == y;
                        assert(vi1[s] == y);
                    } else {
                        assert(vi1[i as int] == y);
                    }
                }
                if vi1.contains(y) {
                    let s = choose|s: int| 0 <= s < vi1.len() && vi1[s] == y;
                    if s < i {
                        assert(vi[s] == y);
                        assert(before.contains(y));
                        let t = choose|t: int| 0 <= t < before.len() && before[t] == y;
                        if out@.len() == before.len() {
                        } else if t < p as int {
                            assert(out@[t] == y);
                        } else {
                            assert(out@[t + 1] == y);
                        }
                    } else {
                        if out@.len() == before.len() {
                            assert(out@[p as int] == y);
                        } else {
                            assert(out@[p as int] == y);
                        }
                    }
                }
            }
        }
        i = i + 1;
    }
    assert(v@.take(v@.len() as int) == v@);
    out
}

/// Two sorted, duplicate-free sequences with the same values are equal.
pub proof fn lemma_sorted_unique_determined(a: Seq<u32>, b: Seq<u32>)
    requires
        strictly_increasing_u32(a),
        strictly_increasing_u32(b),
        forall|x: u32| a.contains(x) <==> b.contains(x),
    ensures
        a == b,
    decreases a.len() + b.len(),
{
    if a.len() == 0 {
        if b.len() > 0 {
            assert(b.contains(b[0]));
        }
        assert(a =~= b);
    } else if b.len() == 0 {
        assert(a.contains(a[0]));
    } else {
        // the first elements are the minima of the same set
        assert(a.contains(b[0]));
        assert(b.contains(a[0]));
        let ia = choose|t: int| 0 <= t < a.len() && a[t] == b[0];
        let ib = choose|t: int| 0 <= t < b.len() && b[t] == a[0];
        if ia > 0 {
            assert(a[0] < a[ia]);
            if ib > 0 {
                assert(b[0] < b[ib]);
            }
        }
        assert(a[0] == b[0]);
        let a1 = a.drop_first();
        let b1 = b.drop_first();
        assert forall|x: u32| a1.contains(x) <==> b1.contains(x) by {
            if a1.contains(x) {
                let t = choose|t: int| 0 <= t < a1.len() && a1[t] == x;
                assert(a[t + 1] == x);
                assert(a.contains(x));
                assert(x > a[0]);
                let s = choose|s: int| 0 <= s < b.len() && b[s] == x;
                assert(s != 0);
                assert(b1[s - 1] == x);
            }
            if b1.contains(x) {
                let t = choose|t: int| 0 <= t < b1.len() && b1[t] == x;
                assert(b[t + 1] == x);
                assert(b.contains(x));
                assert(x > b[0]);
                let s = choose|s: int| 0 <= s < a.len() && a[s] == x;
                assert(s != 0);
                assert(a1[s - 1] == x);
            }
        }
        lemma_sorted_unique_determined(a1, b1);
        assert(a =~= seq![a[0]] + a1);
        assert(b =~= seq![b[0]] + b1);
    }
}

} // verus!
