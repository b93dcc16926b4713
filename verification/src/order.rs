//! Ordering nodes by label, for label-sorted output.
//!
//! `String`'s order compares UTF-8 bytes, and UTF-8 keeps code-point order,
//! so it is the lexicographic order of the characters by code point, which
//! is what [`lex_lt`] states.
use vstd::prelude::*;

use crate::io::label_texts;
use crate::text::text_chars;

verus! {

/// `a` comes strictly before `b` in lexicographic code-point order.
pub open spec fn lex_lt(a: Seq<char>, b: Seq<char>) -> bool
    decreases a.len(),
{
    if a.len() == 0 {
        b.len() > 0
    } else if b.len() == 0 {
        false
    } else if a[0] != b[0] {
        (a[0] as u32) < (b[0] as u32)
    } else {
        lex_lt(a.drop_first(), b.drop_first())
    }
}

/// Node `i` comes before node `j`: by label, then by index.
pub open spec fn key_lt(keys: Seq<Seq<char>>, i: usize, j: usize) -> bool {
    lex_lt(keys[i as int], keys[j as int]) || (keys[i as int] == keys[j as int] && i < j)
}

/// `s` lists nodes strictly increasing under [`key_lt`].
pub open spec fn sorted_by_key(keys: Seq<Seq<char>>, s: Seq<usize>) -> bool {
    forall|x: int, y: int| 0 <= x < y < s.len() ==> key_lt(keys, #[trigger] s[x], #[trigger] s[y])
}

/// `a` comes before `b` exactly when, at the first position where they
/// differ, `a` has the smaller code point, or `a` is a proper prefix of `b`.
pub proof fn lemma_lex_lt_is_code_point_order(a: Seq<char>, b: Seq<char>)
    ensures
        lex_lt(a, b) <==> exists|k: int| #![trigger a.take(k), b.take(k)]
            0 <= k <= a.len() && k <= b.len() && a.take(k) == b.take(k) && ((k == a.len() && k < b.len()) || (k
                < a.len() && k < b.len() && (a[k] as u32) < (b[k] as u32))),
    decreases a.len(),
{
    let p = |a: Seq<char>, b: Seq<char>, k: int|
        0 <= k <= a.len() && k <= b.len() && a.take(k) == b.take(k) && ((k == a.len() && k < b.len()) || (k < a.len()
            && k < b.len() && (a[k] as u32) < (b[k] as u32)));
    assert(a.take(0) =~= b.take(0));
    if a.len() == 0 || b.len() == 0 || a[0] != b[0] {
        if lex_lt(a, b) {
            assert(p(a, b, 0));
        }
        assert forall|k: int| #![trigger a.take(k), b.take(k)] p(a, b, k) implies lex_lt(a, b) by {
            if k > 0 {
                assert(a.take(k)[0] == b.take(k)[0]);
            }
        }
    } else {
        let a1 = a.drop_first();
        let b1 = b.drop_first();
        lemma_lex_lt_is_code_point_order(a1, b1);
        if lex_lt(a, b) {
            let k = choose|k: int| #![trigger a1.take(k), b1.take(k)] p(a1, b1, k);
            assert(a.take(k + 1) =~= seq![a[0]] + a1.take(k));
            assert(b.take(k + 1) =~= seq![b[0]] + b1.take(k));
            assert(a[k + 1] == a1[k] && b[k + 1] == b1[k] || k + 1 >= a.len() || k + 1 >= b.len());
            assert(p(a, b, k + 1));
        }
        assert forall|k: int| #![trigger a.take(k), b.take(k)] p(a, b, k) implies lex_lt(a, b) by {
            if k == 0 {
                vstd::utf8::char_u32_cast(a[0], a[0] as u32);
                vstd::utf8::char_u32_cast(b[0], b[0] as u32);
            } else {
                assert(a1.take(k - 1) =~= a.take(k).drop_first());
                assert(b1.take(k - 1) =~= b.take(k).drop_first());
                assert(p(a1, b1, k - 1));
            }
        }
    }
}

/// On single characters the order is the order of their code points.
pub proof fn lemma_lex_lt_single(c: char, d: char)
    ensures
        lex_lt(seq![c], seq![d]) <==> (c as u32) < (d as u32),
{
    let a = seq![c];
    let b = seq![d];
    assert(a.drop_first() =~= Seq::<char>::empty());
    assert(b.drop_first() =~= Seq::<char>::empty());
    vstd::utf8::char_u32_cast(c, c as u32);
    vstd::utf8::char_u32_cast(d, d as u32);
    assert(a[0] == c && b[0] == d && a.len() == 1 && b.len() == 1);
    assert(!lex_lt(Seq::<char>::empty(), Seq::<char>::empty()));
}

proof fn lemma_lex_irreflexive(a: Seq<char>)
    ensures
        !lex_lt(a, a),
    decreases a.len(),
{
    if a.len() > 0 {
        lemma_lex_irreflexive(a.drop_first());
    }
}

proof fn lemma_lex_transitive(a: Seq<char>, b: Seq<char>, c: Seq<char>)
    requires
        lex_lt(a, b),
        lex_lt(b, c),
    ensures
        lex_lt(a, c),
    decreases a.len(),
{
    if a.len() > 0 && b.len() > 0 && c.len() > 0 && a[0] == b[0] && b[0] == c[0] {
        lemma_lex_transitive(a.drop_first(), b.drop_first(), c.drop_first());
    }
}

proof fn lemma_lex_total(a: Seq<char>, b: Seq<char>)
    ensures
        a == b || lex_lt(a, b) || lex_lt(b, a),
    decreases a.len(),
{
    if a.len() > 0 && b.len() > 0 && a[0] == b[0] {
        lemma_lex_total(a.drop_first(), b.drop_first());
        if a.drop_first() == b.drop_first() {
            assert(a =~= seq![a[0]] + a.drop_first());
            assert(b =~= seq![b[0]] + b.drop_first());
            assert(a =~= b);
        }
    } else if a.len() == 0 && b.len() == 0 {
        assert(a =~= b);
    } else if a.len() > 0 && b.len() > 0 {
        vstd::utf8::char_u32_cast(a[0], a[0] as u32);
        vstd::utf8::char_u32_cast(b[0], b[0] as u32);
    }
}

proof fn lemma_push_contains(s: Seq<usize>, v: usize)
    ensures
        forall|w: usize| s.push(v).contains(w) <==> s.contains(w) || w == v,
{
    assert forall|w: usize| s.push(v).contains(w) <==> s.contains(w) || w == v by {
        if s.push(v).contains(w) {
            let x = choose|x: int| 0 <= x < s.push(v).len() && s.push(v)[x] == w;
            if x < s.len() {
                assert(s[x] == w);
            }
        }
        if s.contains(w) {
            let x = choose|x: int| 0 <= x < s.len() && s[x] == w;
            assert(s.push(v)[x] == w);
        }
        if w == v {
            assert(s.push(v)[s.len() as int] == w);
        }
    }
}

proof fn lemma_lex_asymmetric(a: Seq<char>, b: Seq<char>)
    requires
        lex_lt(a, b),
    ensures
        !lex_lt(b, a),
{
    if lex_lt(b, a) {
        lemma_lex_transitive(a, b, a);
        lemma_lex_irreflexive(a);
    }
}

proof fn lemma_key_transitive(keys: Seq<Seq<char>>, i: usize, j: usize, k: usize)
    requires
        key_lt(keys, i, j),
        key_lt(keys, j, k),
    ensures
        key_lt(keys, i, k),
{
    if lex_lt(keys[i as int], keys[j as int]) && lex_lt(keys[j as int], keys[k as int]) {
        lemma_lex_transitive(keys[i as int], keys[j as int], keys[k as int]);
    }
}

proof fn lemma_key_total(keys: Seq<Seq<char>>, i: usize, j: usize)
    requires
        i != j,
    ensures
        key_lt(keys, i, j) || key_lt(keys, j, i),
{
    lemma_lex_total(keys[i as int], keys[j as int]);
}

proof fn lemma_key_asymmetric(keys: Seq<Seq<char>>, i: usize, j: usize)
    requires
        key_lt(keys, i, j),
    ensures
        !key_lt(keys, j, i),
{
    if lex_lt(keys[i as int], keys[j as int]) {
        lemma_lex_asymmetric(keys[i as int], keys[j as int]);
    } else {
        lemma_lex_irreflexive(keys[i as int]);
    }
}

/// The texts of the rows of `keys`.
pub open spec fn rows(keys: &Vec<Vec<char>>) -> Seq<Seq<char>> {
    Seq::new(keys@.len(), |i: int| keys@[i]@)
}

/// Whether node `i` comes before node `j`.
fn key_less(keys: &Vec<Vec<char>>, i: usize, j: usize) -> (r: bool)
    requires
        i < keys@.len(),
        j < keys@.len(),
    ensures
        r == key_lt(rows(keys), i, j),
{
    let a = &keys[i];
    let b = &keys[j];
    let mut k: usize = 0;
    proof {
        assert(a@.skip(0) =~= a@);
        assert(b@.skip(0) =~= b@);
    }
    while k < a.len() && k < b.len() && a[k] == b[k]
        invariant
            k <= a@.len(),
            k <= b@.len(),
            forall|t: int| 0 <= t < k ==> a@[t] == b@[t],
            lex_lt(a@, b@) == lex_lt(a@.skip(k as int), b@.skip(k as int)),
        decreases a@.len() - k,
    {
        proof {
            let sa = a@.skip(k as int);
            let sb = b@.skip(k as int);
            assert(sa.drop_first() =~= a@.skip(k + 1));
            assert(sb.drop_first() =~= b@.skip(k + 1));
            assert(sa[0] == sb[0]);
        }
        k = k + 1;
    }
    proof {
        if k < a@.len() && k < b@.len() {
            assert(a@.skip(k as int)[0] == a@[k as int]);
            assert(b@.skip(k as int)[0] == b@[k as int]);
        }
        if k == a@.len() && k == b@.len() {
            assert(a@ =~= b@);
        }
        if a@ == b@ {
            lemma_lex_irreflexive(a@);
        }
        if k < a@.len() && k < b@.len() {
            assert(a@ != b@) by {
                assert(a@[k as int] != b@[k as int]);
            }
        } else if a@.len() != b@.len() {
            assert(a@ != b@);
        }
    }
    let lt = if k < a.len() && k < b.len() {
        (a[k] as u32) < (b[k] as u32)
    } else {
        k == a.len() && k < b.len()
    };
    let same = k == a.len() && k == b.len();
    lt || (same && i < j)
}

/// Merges two sorted runs of distinct nodes into one.
fn merge(keys: &Vec<Vec<char>>, a: &Vec<usize>, b: &Vec<usize>) -> (r: Vec<usize>)
    requires
        forall|x: int| 0 <= x < a@.len() ==> #[trigger] a@[x] < keys@.len(),
        forall|x: int| 0 <= x < b@.len() ==> #[trigger] b@[x] < keys@.len(),
        sorted_by_key(rows(keys), a@),
        sorted_by_key(rows(keys), b@),
        forall|x: int, y: int| 0 <= x < a@.len() && 0 <= y < b@.len() ==> #[trigger] a@[x] != #[trigger] b@[y],
        a@.len() + b@.len() <= usize::MAX,
    ensures
        r@.len() == a@.len() + b@.len(),
        forall|v: usize| r@.contains(v) <==> a@.contains(v) || b@.contains(v),
        sorted_by_key(rows(keys), r@),
{
    let ghost ks = rows(keys);
    let mut r: Vec<usize> = Vec::with_capacity(a.len() + b.len());
    let mut i: usize = 0;
    let mut j: usize = 0;
    while i < a.len() || j < b.len()
        invariant
            forall|x: int| 0 <= x < a@.len() ==> #[trigger] a@[x] < keys@.len(),
            forall|x: int| 0 <= x < b@.len() ==> #[trigger] b@[x] < keys@.len(),
            ks == rows(keys),
            sorted_by_key(ks, a@),
            sorted_by_key(ks, b@),
            forall|x: int, y: int| 0 <= x < a@.len() && 0 <= y < b@.len() ==> #[trigger] a@[x] != #[trigger] b@[y],
            i <= a@.len(),
            j <= b@.len(),
            r@.len() == i + j,
            forall|v: usize| r@.contains(v) <==> a@.subrange(0, i as int).contains(v) || b@.subrange(0, j as int).contains(v),
            sorted_by_key(ks, r@),
            forall|x: int, y: int| 0 <= x < r@.len() && i <= y < a@.len() ==> key_lt(ks, #[trigger] r@[x], #[trigger] a@[y]),
            forall|x: int, y: int| 0 <= x < r@.len() && j <= y < b@.len() ==> key_lt(ks, #[trigger] r@[x], #[trigger] b@[y]),
        decreases a@.len() + b@.len() - i - j,
    {
        let take_a = if i < a.len() && j < b.len() {
            key_less(keys, a[i], b[j])
        } else {
            i < a.len()
        };
        let ghost r0 = r@;
        if take_a {
            let v = a[i];
            proof {
                assert forall|y: int| j <= y < b@.len() implies key_lt(ks, v, #[trigger] b@[y]) by {
                    if y > j {
                        lemma_key_transitive(ks, v, b@[j as int], b@[y]);
                    }
                }
            }
            r.push(v);
            proof {
                assert(a@.subrange(0, i + 1) =~= a@.subrange(0, i as int).push(v));
                lemma_push_contains(a@.subrange(0, i as int), v);
                lemma_push_contains(r0, v);
                assert(r@ == r0.push(v));
                assert forall|w: usize| r@.contains(w) <==> a@.subrange(0, i + 1).contains(w) || b@.subrange(0, j as int).contains(w) by {
                    assert(r0.contains(w) <==> a@.subrange(0, i as int).contains(w) || b@.subrange(0, j as int).contains(w));
                }
            }
            i = i + 1;
        } else {
            let v = b[j];
            proof {
                if i < a@.len() {
                    lemma_key_total(ks, a@[i as int], v);
                    assert(a@[i as int] != v);
                    assert(key_lt(ks, v, a@[i as int]));
                }
                assert forall|y: int| i <= y < a@.len() implies key_lt(ks, v, #[trigger] a@[y]) by {
                    if y > i {
                        lemma_key_transitive(ks, v, a@[i as int], a@[y]);
                    }
                }
            }
            r.push(v);
            proof {
                assert(b@.subrange(0, j + 1) =~= b@.subrange(0, j as int).push(v));
                lemma_push_contains(b@.subrange(0, j as int), v);
                lemma_push_contains(r0, v);
                assert(r@ == r0.push(v));
                assert forall|w: usize| r@.contains(w) <==> a@.subrange(0, i as int).contains(w) || b@.subrange(0, j + 1).contains(w) by {
                    assert(r0.contains(w) <==> a@.subrange(0, i as int).contains(w) || b@.subrange(0, j as int).contains(w));
                }
            }
            j = j + 1;
        }
        proof {
            assert forall|x: int, y: int| 0 <= x < y < r@.len() implies key_lt(ks, #[trigger] r@[x], #[trigger] r@[y]) by {
                if y < r0.len() {
                    assert(r@[x] == r0[x] && r@[y] == r0[y]);
                }
            }
        }
    }
    proof {
        assert(a@.subrange(0, i as int) =~= a@);
        assert(b@.subrange(0, j as int) =~= b@);
    }
    r
}

/// `s` sorted under [`key_lt`].
fn sort_nodes(keys: &Vec<Vec<char>>, s: &Vec<usize>) -> (r: Vec<usize>)
    requires
        forall|x: int| 0 <= x < s@.len() ==> #[trigger] s@[x] < keys@.len(),
        s@.no_duplicates(),
    ensures
        r@.len() == s@.len(),
        forall|v: usize| r@.contains(v) <==> s@.contains(v),
        sorted_by_key(rows(keys), r@),
    decreases s@.len(),
{
    if s.len() <= 1 {
        let mut r: Vec<usize> = Vec::new();
        if s.len() == 1 {
            r.push(s[0]);
        }
        proof {
            assert(r@ =~= s@);
        }
        return r;
    }
    let mid = s.len() / 2;
    let mut left: Vec<usize> = Vec::with_capacity(mid);
    let mut right: Vec<usize> = Vec::with_capacity(s.len() - mid);
    let mut k: usize = 0;
    while k < s.len()
        invariant
            mid < s@.len(),
            k <= s@.len(),
            k <= mid ==> left@ =~= s@.subrange(0, k as int) && right@.len() == 0,
            k > mid ==> left@ =~= s@.subrange(0, mid as int) && right@ =~= s@.subrange(mid as int, k as int),
        decreases s@.len() - k,
    {
        if k < mid {
            left.push(s[k]);
        } else {
            right.push(s[k]);
        }
        k = k + 1;
    }
    proof {
        if k <= mid {
            assert(false);
        }
        assert forall|x: int, y: int| 0 <= x < left@.len() && 0 <= y < right@.len() implies #[trigger] left@[x]
            != #[trigger] right@[y] by {
            assert(left@[x] == s@[x]);
            assert(right@[y] == s@[mid + y]);
        }
        assert forall|v: usize| s@.contains(v) <==> left@.contains(v) || right@.contains(v) by {
            if s@.contains(v) {
                let x = choose|x: int| 0 <= x < s@.len() && s@[x] == v;
                if x < mid {
                    assert(left@[x] == v);
                } else {
                    assert(right@[x - mid] == v);
                }
            }
        }
    }
    let l = sort_nodes(keys, &left);
    let r = sort_nodes(keys, &right);
    proof {
        assert forall|x: int, y: int| 0 <= x < l@.len() && 0 <= y < r@.len() implies #[trigger] l@[x] != #[trigger] r@[y] by {
            assert(left@.contains(l@[x]));
            assert(right@.contains(r@[y]));
        }
        assert forall|x: int| 0 <= x < l@.len() implies #[trigger] l@[x] < keys@.len() by {
            assert(left@.contains(l@[x]));
        }
        assert forall|x: int| 0 <= x < r@.len() implies #[trigger] r@[x] < keys@.len() by {
            assert(right@.contains(r@[x]));
        }
    }
    merge(keys, &l, &r)
}

/// The node indices `0..labels.len()` ordered by label (lexicographic by
/// code point, which is `String`'s order), ties by index.
pub fn label_order(labels: &Vec<String>) -> (order: Vec<usize>)
    ensures
        order@.len() == labels@.len(),
        forall|v: usize| order@.contains(v) <==> v < labels@.len(),
        order@.no_duplicates(),
        forall|x: int, y: int| 0 <= x < y < order@.len() ==> key_lt(label_texts(labels@), #[trigger] order@[x], #[trigger] order@[y]),
{
    let n = labels.len();
    let mut keys: Vec<Vec<char>> = Vec::with_capacity(n);
    let mut ids: Vec<usize> = Vec::with_capacity(n);
    let mut i: usize = 0;
    while i < n
        invariant
            n == labels@.len(),
            i <= n,
            keys@.len() == i,
            ids@.len() == i,
            forall|x: int| 0 <= x < i ==> (#[trigger] keys@[x])@ == labels@[x]@,
            forall|x: int| 0 <= x < i ==> #[trigger] ids@[x] == x,
        decreases n - i,
    {
        keys.push(text_chars(labels[i].as_str()));
        ids.push(i);
        i = i + 1;
    }
    proof {
        assert(rows(&keys) =~= label_texts(labels@));
        assert forall|x: int, y: int| 0 <= x < y < ids@.len() implies ids@[x] != ids@[y] by {}
        assert forall|x: int| 0 <= x < ids@.len() implies #[trigger] ids@[x] < keys@.len() by {}
    }
    let order = sort_nodes(&keys, &ids);
    proof {
        assert forall|v: usize| order@.contains(v) <==> v < n by {
            if v < n {
                assert(ids@[v as int] == v);
            }
        }
        assert forall|x: int, y: int| 0 <= x < y < order@.len() implies order@[x] != order@[y] by {
            assert(key_lt(label_texts(labels@), order@[x], order@[y]));
            lemma_key_asymmetric(label_texts(labels@), order@[x], order@[y]);
        }
    }
    order
}

} // verus!
