//! Lexicographic order over integer keys, string keys, and a stable verified sort.
use vstd::prelude::*;

use crate::text::str_chars;

verus! {

broadcast use vstd::seq_lib::group_to_multiset_ensures;

/// Strict lexicographic order on integer sequences (a proper prefix is smaller).
pub open spec fn lex_lt(a: Seq<int>, b: Seq<int>) -> bool
    decreases a.len(),
{
    if a.len() == 0 {
        b.len() > 0
    } else if b.len() == 0 {
        false
    } else if a[0] < b[0] {
        true
    } else if a[0] > b[0] {
        false
    } else {
        lex_lt(a.drop_first(), b.drop_first())
    }
}

pub proof fn lemma_lex_irreflexive(a: Seq<int>)
    ensures
        !lex_lt(a, a),
    decreases a.len(),
{
    if a.len() > 0 {
        lemma_lex_irreflexive(a.drop_first());
    }
}

pub proof fn lemma_lex_transitive(a: Seq<int>, b: Seq<int>, c: Seq<int>)
    requires
        lex_lt(a, b),
        lex_lt(b, c),
    ensures
        lex_lt(a, c),
    decreases a.len(),
{
    if a.len() > 0 && b.len() > 0 && c.len() > 0 {
        if a[0] == b[0] && b[0] == c[0] {
            lemma_lex_transitive(a.drop_first(), b.drop_first(), c.drop_first());
        }
    }
}

pub proof fn lemma_lex_total(a: Seq<int>, b: Seq<int>)
    ensures
        a == b || lex_lt(a, b) || lex_lt(b, a),
    decreases a.len(),
{
    if a.len() > 0 && b.len() > 0 && a[0] == b[0] {
        lemma_lex_total(a.drop_first(), b.drop_first());
        if a.drop_first() == b.drop_first() {
            assert(a =~= seq![a[0]] + a.drop_first());
            assert(b =~= seq![b[0]] + b.drop_first());
        }
    }
    if a.len() == 0 && b.len() == 0 {
        assert(a =~= b);
    }
}

pub proof fn lemma_lex_asymmetric(a: Seq<int>, b: Seq<int>)
    requires
        lex_lt(a, b),
    ensures
        !lex_lt(b, a),
{
    if lex_lt(b, a) {
        lemma_lex_transitive(a, b, a);
        lemma_lex_irreflexive(a);
    }
}

/// `x` and `y` are equal or differ at a position both have; concatenations after them then
/// compare by `x` and `y` first.
pub open spec fn separated(x: Seq<int>, y: Seq<int>) -> bool {
    x == y || exists|i: int| 0 <= i < x.len() && i < y.len() && x[i] != y[i]
}

pub proof fn lemma_lex_concat(x: Seq<int>, y: Seq<int>, u: Seq<int>, v: Seq<int>)
    requires
        separated(x, u),
    ensures
        x == u ==> (lex_lt(x + y, u + v) == lex_lt(y, v)),
        x != u ==> (lex_lt(x + y, u + v) == lex_lt(x, u)),
    decreases x.len(),
{
    if x.len() == 0 {
        if u.len() > 0 {
            let i = choose|i: int| 0 <= i < x.len() && i < u.len() && x[i] != u[i];
        } else {
            assert(x =~= u);
            assert(x + y =~= y);
            assert(u + v =~= v);
        }
    } else if u.len() == 0 {
        if x != u {
            let i = choose|i: int| 0 <= i < x.len() && i < u.len() && x[i] != u[i];
        }
    } else {
        assert((x + y)[0] == x[0]);
        assert((u + v)[0] == u[0]);
        assert((x + y).drop_first() =~= x.drop_first() + y);
        assert((u + v).drop_first() =~= u.drop_first() + v);
        if x[0] == u[0] {
            if x != u {
                let i = choose|i: int| 0 <= i < x.len() && i < u.len() && x[i] != u[i];
                assert(i > 0);
                assert(x.drop_first()[i - 1] != u.drop_first()[i - 1]);
                if x.drop_first() == u.drop_first() {
                    assert(x =~= seq![x[0]] + x.drop_first());
                    assert(u =~= seq![u[0]] + u.drop_first());
                }
            } else {
                assert(x.drop_first() == u.drop_first());
            }
            lemma_lex_concat(x.drop_first(), y, u.drop_first(), v);
            if x.drop_first() == u.drop_first() {
                assert(x =~= seq![x[0]] + x.drop_first());
                assert(u =~= seq![u[0]] + u.drop_first());
            }
        }
    }
}

/// Key of a string: character codes shifted by one, then a `0` terminator. Comparing keys
/// compares the strings bytewise (UTF-8 preserves the order of code points).
pub open spec fn str_key(s: Seq<char>) -> Seq<int> {
    s.map_values(|c: char| c as int + 1).push(0)
}

/// A character's code is non-negative.
pub proof fn lemma_char_code_nonneg(c: char)
    ensures
        c as int >= 0,
{
}

/// Key of a number.
pub open spec fn num_key(n: int) -> Seq<int> {
    seq![n]
}

/// Key of an optional string: absent sorts first.
pub open spec fn opt_str_key(s: Option<Seq<char>>) -> Seq<int> {
    match s {
        None => seq![0],
        Some(t) => seq![1int] + str_key(t),
    }
}

/// Key of an optional number: absent sorts first.
pub open spec fn opt_num_key(n: Option<int>) -> Seq<int> {
    match n {
        None => seq![0],
        Some(k) => seq![1int, k],
    }
}

pub proof fn lemma_str_key_separated(a: Seq<char>, b: Seq<char>)
    ensures
        separated(str_key(a), str_key(b)),
        str_key(a) == str_key(b) <==> a == b,
{
    let ka = str_key(a);
    let kb = str_key(b);
    if a == b {
    } else {
        if exists|i: int| 0 <= i < a.len() && i < b.len() && a[i] != b[i] {
            let i = choose|i: int| 0 <= i < a.len() && i < b.len() && a[i] != b[i];
            assert(ka[i] == a[i] as int + 1);
            assert(kb[i] == b[i] as int + 1);
            assert(a[i] as int != b[i] as int);
            assert(0 <= i < ka.len() && i < kb.len() && ka[i] != kb[i]);
        } else if a.len() < b.len() {
            let i = a.len() as int;
            assert(ka[i] == 0);
            assert(kb[i] == b[i] as int + 1);
            lemma_char_code_nonneg(b[i]);
            assert(0 <= i < ka.len() && i < kb.len() && ka[i] != kb[i]);
        } else if b.len() < a.len() {
            let i = b.len() as int;
            assert(kb[i] == 0);
            assert(ka[i] == a[i] as int + 1);
            lemma_char_code_nonneg(a[i]);
            assert(0 <= i < ka.len() && i < kb.len() && ka[i] != kb[i]);
        } else {
            assert(a =~= b);
        }
    }
    if ka == kb {
        assert(a.len() == b.len());
        assert forall|i: int| 0 <= i < a.len() implies a[i] == b[i] by {
            assert(ka[i] == a[i] as int + 1);
            assert(kb[i] == b[i] as int + 1);
        }
        assert(a =~= b);
    }
}

pub proof fn lemma_opt_str_key_separated(a: Option<Seq<char>>, b: Option<Seq<char>>)
    ensures
        separated(opt_str_key(a), opt_str_key(b)),
        opt_str_key(a) == opt_str_key(b) <==> a == b,
{
    match (a, b) {
        (Some(x), Some(y)) => {
            lemma_str_key_separated(x, y);
            let kx = opt_str_key(a);
            let ky = opt_str_key(b);
            if x != y {
                let i = choose|i: int|
                    0 <= i < str_key(x).len() && i < str_key(y).len() && str_key(x)[i]
                        != str_key(y)[i];
                assert(kx[i + 1] == str_key(x)[i]);
                assert(ky[i + 1] == str_key(y)[i]);
            } else {
            }
            if kx == ky {
                assert(str_key(x) =~= kx.drop_first());
                assert(str_key(y) =~= ky.drop_first());
            }
        },
        (None, Some(y)) => {
            assert(opt_str_key(a)[0] != opt_str_key(b)[0]);
        },
        (Some(x), None) => {
            assert(opt_str_key(a)[0] != opt_str_key(b)[0]);
        },
        (None, None) => {},
    }
}

pub proof fn lemma_opt_num_key_separated(a: Option<int>, b: Option<int>)
    ensures
        separated(opt_num_key(a), opt_num_key(b)),
        opt_num_key(a) == opt_num_key(b) <==> a == b,
{
    match (a, b) {
        (Some(x), Some(y)) => {
            if x != y {
                assert(opt_num_key(a)[1] != opt_num_key(b)[1]);
            }
        },
        (None, Some(y)) => {
            assert(opt_num_key(a)[0] != opt_num_key(b)[0]);
        },
        (Some(x), None) => {
            assert(opt_num_key(a)[0] != opt_num_key(b)[0]);
        },
        (None, None) => {},
    }
}

pub proof fn lemma_num_key_separated(a: int, b: int)
    ensures
        separated(num_key(a), num_key(b)),
        num_key(a) == num_key(b) <==> a == b,
{
    if a != b {
        assert(num_key(a)[0] != num_key(b)[0]);
    }
}

/// Three-way comparison of two strings in bytewise order: -1, 0 or 1.
pub fn compare_strs(a: &str, b: &str) -> (c: i8)
    ensures
        c == -1 <==> lex_lt(str_key(a@), str_key(b@)),
        c == 0 <==> a@ == b@,
        c == 1 <==> lex_lt(str_key(b@), str_key(a@)),
{
    let x = str_chars(a);
    let y = str_chars(b);
    let mut i: usize = 0;
    let ghost kx = str_key(x@);
    let ghost ky = str_key(y@);
    proof {
        lemma_str_key_separated(x@, y@);
    }
    while i < x.len() && i < y.len() && x[i] == y[i]
        invariant
            0 <= i <= x@.len(),
            i <= y@.len(),
            kx == str_key(x@),
            ky == str_key(y@),
            forall|j: int| 0 <= j < i ==> x@[j] == y@[j],
        decreases x@.len() - i,
    {
        i = i + 1;
    }
    proof {
        assert forall|j: int| 0 <= j < i implies kx[j] == ky[j] by {
            assert(kx[j] == x@[j] as int + 1);
            assert(ky[j] == y@[j] as int + 1);
        }
        assert(kx.subrange(0, i as int) =~= ky.subrange(0, i as int));
        lemma_lex_common_prefix(kx, ky, i as int);
        assert(ky.subrange(0, i as int) =~= kx.subrange(0, i as int));
        lemma_str_key_separated(x@, y@);
        lemma_lex_irreflexive(kx);
        lemma_lex_total(kx, ky);
    }
    if i < x.len() && i < y.len() {
        proof {
            assert(kx[i as int] == x@[i as int] as int + 1);
            assert(ky[i as int] == y@[i as int] as int + 1);
            assert(x@ != y@);
        }
        if x[i] < y[i] {
            proof {
                assert(kx.skip(i as int)[0] < ky.skip(i as int)[0]);
                assert(lex_lt(kx.skip(i as int), ky.skip(i as int)));
                lemma_lex_asymmetric(kx, ky);
            }
            -1
        } else {
            proof {
                assert(kx.skip(i as int)[0] > ky.skip(i as int)[0]);
                assert(lex_lt(ky.skip(i as int), kx.skip(i as int)));
                lemma_lex_common_prefix(ky, kx, i as int);
                lemma_lex_asymmetric(ky, kx);
            }
            1
        }
    } else if i < x.len() {
        proof {
            assert(ky[i as int] == 0);
            assert(kx[i as int] == x@[i as int] as int + 1);
            lemma_char_code_nonneg(x@[i as int]);
            assert(x@ != y@);
            assert(kx.skip(i as int)[0] > ky.skip(i as int)[0]);
            assert(lex_lt(ky.skip(i as int), kx.skip(i as int)));
            lemma_lex_common_prefix(ky, kx, i as int);
            lemma_lex_asymmetric(ky, kx);
        }
        1
    } else if i < y.len() {
        proof {
            assert(kx[i as int] == 0);
            assert(ky[i as int] == y@[i as int] as int + 1);
            lemma_char_code_nonneg(y@[i as int]);
            assert(x@ != y@);
            assert(kx.skip(i as int)[0] < ky.skip(i as int)[0]);
            assert(lex_lt(kx.skip(i as int), ky.skip(i as int)));
            lemma_lex_asymmetric(kx, ky);
        }
        -1
    } else {
        proof {
            assert(x@ =~= y@);
        }
        0
    }
}

/// After a common prefix of length `i`, the order is decided by the rest.
pub proof fn lemma_lex_common_prefix(a: Seq<int>, b: Seq<int>, i: int)
    requires
        0 <= i <= a.len(),
        i <= b.len(),
        a.subrange(0, i) == b.subrange(0, i),
    ensures
        lex_lt(a, b) == lex_lt(a.skip(i), b.skip(i)),
    decreases i,
{
    if i > 0 {
        assert(a[0] == a.subrange(0, i)[0]);
        assert(b[0] == b.subrange(0, i)[0]);
        assert(a.drop_first().subrange(0, i - 1) =~= a.subrange(0, i).drop_first());
        assert(b.drop_first().subrange(0, i - 1) =~= b.subrange(0, i).drop_first());
        lemma_lex_common_prefix(a.drop_first(), b.drop_first(), i - 1);
        assert(a.drop_first().skip(i - 1) =~= a.skip(i));
        assert(b.drop_first().skip(i - 1) =~= b.skip(i));
    } else {
        assert(a.skip(0) =~= a);
        assert(b.skip(0) =~= b);
    }
}

/// Values ordered by an integer-sequence key.
pub trait SortKey: Sized {
    spec fn sort_key(&self) -> Seq<int>;

    fn key_less(&self, other: &Self) -> (less: bool)
        ensures
            less == lex_lt(self.sort_key(), other.sort_key()),
    ;
}

/// `s` is ordered by key: no element's key is smaller than an earlier element's key.
pub open spec fn sorted_by_key<T: SortKey>(s: Seq<T>) -> bool {
    forall|i: int, j: int| 0 <= i < j < s.len() ==> !lex_lt(s[j].sort_key(), s[i].sort_key())
}

/// Stable sort by key (equal keys keep their relative order).
pub fn sort_by_key<T: SortKey>(items: Vec<T>) -> (out: Vec<T>)
    ensures
        out@.to_multiset() == items@.to_multiset(),
        out@.len() == items@.len(),
        sorted_by_key(out@),
{
    let mut rest = items;
    let mut out: Vec<T> = Vec::new();
    let ghost initial = rest@;
    while rest.len() > 0
        invariant
            out@.to_multiset().add(rest@.to_multiset()) == initial.to_multiset(),
            out@.len() + rest@.len() == initial.len(),
            sorted_by_key(out@),
        decreases rest@.len(),
    {
        let ghost rest0 = rest@;
        let x = rest.pop().unwrap();
        proof {
            assert(rest0 =~= rest@.push(x));
            rest@.to_multiset_ensures();
            rest0.to_multiset_ensures();
            assert(rest0.to_multiset() =~= rest@.to_multiset().insert(x));
        }
        let mut p: usize = 0;
        while p < out.len() && out[p].key_less(&x)
            invariant
                0 <= p <= out@.len(),
                sorted_by_key(out@),
                forall|t: int| 0 <= t < p ==> lex_lt(out@[t].sort_key(), x.sort_key()),
            decreases out@.len() - p,
        {
            p = p + 1;
        }
        let ghost before = out@;
        proof {
            if p < out@.len() {
                assert(!lex_lt(out@[p as int].sort_key(), x.sort_key()));
            }
        }
        out.insert(p, x);
        proof {
            let kx = x.sort_key();
            assert(out@ =~= before.insert(p as int, x));
            before.to_multiset_ensures();
            out@.to_multiset_ensures();
            vstd::seq_lib::to_multiset_insert(before, p as int, x);
            assert forall|i: int, j: int| 0 <= i < j < out@.len() implies !lex_lt(
                out@[j].sort_key(),
                out@[i].sort_key(),
            ) by {
                if j < p {
                    assert(out@[i] == before[i] && out@[j] == before[j]);
                } else if j == p {
                    assert(out@[i] == before[i]);
                    lemma_lex_asymmetric(before[i].sort_key(), kx);
                } else if i < p {
                    assert(out@[i] == before[i] && out@[j] == before[j - 1]);
                } else if i == p {
                    assert(out@[j] == before[j - 1]);
                    // before[p] is not below x and before[j - 1] is not below before[p]
                    assert(!lex_lt(before[p as int].sort_key(), kx));
                    if j - 1 > p {
                        assert(!lex_lt(before[j - 1].sort_key(), before[p as int].sort_key()));
                        if lex_lt(before[j - 1].sort_key(), kx) {
                            lemma_lex_total(before[p as int].sort_key(), kx);
                            if before[p as int].sort_key() != kx {
                                lemma_lex_transitive(before[j - 1].sort_key(), kx, before[p as int].sort_key());
                            }
                        }
                    }
                } else {
                    assert(out@[i] == before[i - 1] && out@[j] == before[j - 1]);
                }
            }
        }
    }
    proof {
        assert(rest@.len() == 0);
        assert(rest@.to_multiset() =~= vstd::multiset::Multiset::empty());
        assert(out@.to_multiset().add(vstd::multiset::Multiset::empty()) =~= out@.to_multiset());
    }
    out
}

/// Sorting is determined by the items alone: two sorted orderings of the same items are the
/// same sequence, when items with equal keys are equal.
pub proof fn lemma_sorted_order_unique<T: SortKey>(s1: Seq<T>, s2: Seq<T>)
    requires
        s1.to_multiset() == s2.to_multiset(),
        sorted_by_key(s1),
        sorted_by_key(s2),
        forall|i: int, j: int|
            0 <= i < s1.len() && 0 <= j < s1.len() && #[trigger] s1[i].sort_key() == #[trigger] s1[j].sort_key()
                ==> s1[i] == s1[j],
    ensures
        s1 == s2,
    decreases s1.len(),
{
    s1.to_multiset_ensures();
    s2.to_multiset_ensures();
    if s1.len() == 0 {
        assert(s1 =~= s2);
    } else {
        let x = s1[0];
        let y = s2[0];
        assert(s2.contains(y));
        assert(s2.to_multiset().count(y) > 0);
        assert(s1.to_multiset().count(y) > 0);
        assert(s1.contains(y));
        let i = choose|i: int| 0 <= i < s1.len() && s1[i] == y;
        assert(s1.contains(x));
        assert(s1.to_multiset().count(x) > 0);
        assert(s2.to_multiset().count(x) > 0);
        assert(s2.contains(x));
        let j = choose|j: int| 0 <= j < s2.len() && s2[j] == x;
        if i > 0 {
            assert(!lex_lt(s1[i].sort_key(), s1[0].sort_key()));
        }
        if j > 0 {
            assert(!lex_lt(s2[j].sort_key(), s2[0].sort_key()));
        }
        lemma_lex_irreflexive(x.sort_key());
        lemma_lex_total(x.sort_key(), y.sort_key());
        assert(x.sort_key() == y.sort_key());
        assert(s1[0] == s1[i]);
        assert(x == y);
        let t1 = s1.remove(0);
        let t2 = s2.remove(0);
        vstd::seq_lib::to_multiset_remove(s1, 0);
        vstd::seq_lib::to_multiset_remove(s2, 0);
        assert(t1.to_multiset() == t2.to_multiset());
        assert forall|a: int, b: int| 0 <= a < b < t1.len() implies !lex_lt(t1[b].sort_key(), t1[a].sort_key()) by {
            assert(t1[a] == s1[a + 1] && t1[b] == s1[b + 1]);
        }
        assert forall|a: int, b: int| 0 <= a < b < t2.len() implies !lex_lt(t2[b].sort_key(), t2[a].sort_key()) by {
            assert(t2[a] == s2[a + 1] && t2[b] == s2[b + 1]);
        }
        assert forall|a: int, b: int|
            0 <= a < t1.len() && 0 <= b < t1.len() && #[trigger] t1[a].sort_key() == #[trigger] t1[b].sort_key()
                implies t1[a] == t1[b] by {
            assert(t1[a] == s1[a + 1] && t1[b] == s1[b + 1]);
        }
        lemma_sorted_order_unique(t1, t2);
        assert(s1 =~= seq![x] + t1);
        assert(s2 =~= seq![y] + t2);
    }
}

} // verus!
