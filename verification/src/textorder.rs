//! Lexicographic order on text, used to sort the address lists of discovered
//! endpoints ascending for determinism.

use vstd::prelude::*;

verus! {

/// Strict lexicographic order on character sequences, by code point.
pub open spec fn lex_lt(a: Seq<char>, b: Seq<char>) -> bool
    decreases a.len(),
{
    if b.len() == 0 {
        false
    } else if a.len() == 0 {
        true
    } else if a[0] != b[0] {
        a[0] < b[0]
    } else {
        lex_lt(a.drop_first(), b.drop_first())
    }
}

/// The order is transitive.
pub proof fn lemma_lex_lt_transitive(a: Seq<char>, b: Seq<char>, c: Seq<char>)
    requires
        lex_lt(a, b),
        lex_lt(b, c),
    ensures
        lex_lt(a, c),
    decreases a.len(),
{
    if a.len() > 0 && b.len() > 0 && c.len() > 0 && a[0] == b[0] && b[0] == c[0] {
        lemma_lex_lt_transitive(a.drop_first(), b.drop_first(), c.drop_first());
    }
}

/// The order is total: distinct sequences compare one way or the other.
pub proof fn lemma_lex_lt_connex(a: Seq<char>, b: Seq<char>)
    requires
        !lex_lt(a, b),
        !lex_lt(b, a),
    ensures
        a == b,
    decreases a.len(),
{
    if a.len() == 0 || b.len() == 0 {
        assert(a =~= b);
    } else {
        assert(a[0] == b[0]);
        lemma_lex_lt_connex(a.drop_first(), b.drop_first());
        assert(a =~= seq![a[0]] + a.drop_first());
        assert(b =~= seq![b[0]] + b.drop_first());
    }
}

/// No element of `s` is repeated and the elements ascend strictly.
pub open spec fn strictly_sorted(s: Seq<Seq<char>>) -> bool {
    forall|i: int, j: int| 0 <= i < j < s.len() ==> lex_lt(s[i], s[j])
}

/// `x` placed at its position in `s`; `s` unchanged when it already holds
/// `x`.
pub open spec fn insert_sorted(s: Seq<Seq<char>>, x: Seq<char>) -> Seq<Seq<char>>
    decreases s.len(),
{
    if s.len() == 0 {
        seq![x]
    } else if x == s[0] {
        s
    } else if lex_lt(x, s[0]) {
        seq![x] + s
    } else {
        seq![s[0]] + insert_sorted(s.drop_first(), x)
    }
}

/// The first `n` elements of `s`, sorted ascending with duplicates dropped.
pub open spec fn sort_dedup_upto(s: Seq<Seq<char>>, n: int) -> Seq<Seq<char>>
    decreases n,
{
    if n <= 0 {
        Seq::empty()
    } else {
        insert_sorted(sort_dedup_upto(s, n - 1), s[n - 1])
    }
}

/// `s` sorted ascending with duplicates dropped.
pub open spec fn sorted_unique(s: Seq<Seq<char>>) -> Seq<Seq<char>> {
    sort_dedup_upto(s, s.len() as int)
}

/// Inserting into a strictly sorted sequence keeps it strictly sorted, and
/// adds exactly the element inserted.
pub proof fn lemma_insert_sorted(s: Seq<Seq<char>>, x: Seq<char>)
    requires
        strictly_sorted(s),
    ensures
        strictly_sorted(insert_sorted(s, x)),
        forall|y: Seq<char>|
            #[trigger] insert_sorted(s, x).contains(y) <==> (s.contains(y) || y == x),
    decreases s.len(),
{
    let r = insert_sorted(s, x);
    if s.len() == 0 {
        assert forall|y: Seq<char>| #[trigger] r.contains(y) implies (s.contains(y) || y == x) by {
            assert(r[choose|i: int| 0 <= i < r.len() && r[i] == y] == x);
        }
        assert(r.contains(x)) by {
            assert(r[0] == x);
        }
    } else if x == s[0] {
        assert(s.contains(x)) by {
            assert(s[0] == x);
        }
    } else if lex_lt(x, s[0]) {
        assert forall|i: int, j: int| 0 <= i < j < r.len() implies lex_lt(r[i], r[j]) by {
            if i == 0 {
                assert(r[j] == s[j - 1]);
                if j > 1 {
                    lemma_lex_lt_transitive(x, s[0], s[j - 1]);
                }
            } else {
                assert(r[i] == s[i - 1] && r[j] == s[j - 1]);
            }
        }
        assert forall|y: Seq<char>| #[trigger] r.contains(y) implies (s.contains(y) || y == x) by {
            let k = choose|i: int| 0 <= i < r.len() && r[i] == y;
            if k > 0 {
                assert(s[k - 1] == y);
            }
        }
        assert forall|y: Seq<char>| s.contains(y) || y == x implies #[trigger] r.contains(y) by {
            if y == x {
                assert(r[0] == y);
            } else {
                let k = choose|i: int| 0 <= i < s.len() && s[i] == y;
                assert(r[k + 1] == y);
            }
        }
    } else {
        assert(lex_lt(s[0], x)) by {
            if !lex_lt(s[0], x) {
                lemma_lex_lt_connex(x, s[0]);
            }
        }
        let t = s.drop_first();
        assert(strictly_sorted(t)) by {
            assert forall|i: int, j: int| 0 <= i < j < t.len() implies lex_lt(t[i], t[j]) by {
                assert(t[i] == s[i + 1] && t[j] == s[j + 1]);
            }
        }
        lemma_insert_sorted(t, x);
        let rt = insert_sorted(t, x);
        assert forall|i: int, j: int| 0 <= i < j < r.len() implies lex_lt(r[i], r[j]) by {
            if i == 0 {
                assert(r[j] == rt[j - 1]);
                assert(rt.contains(rt[j - 1]));
                if rt[j - 1] == x {
                    assert(lex_lt(s[0], x));
                } else {
                    assert(t.contains(rt[j - 1]));
                    let k = choose|m: int| 0 <= m < t.len() && t[m] == rt[j - 1];
                    assert(t[k] == s[k + 1]);
                }
            } else {
                assert(r[i] == rt[i - 1] && r[j] == rt[j - 1]);
            }
        }
        assert forall|y: Seq<char>| #[trigger] r.contains(y) implies (s.contains(y) || y == x) by {
            let k = choose|i: int| 0 <= i < r.len() && r[i] == y;
            if k == 0 {
                assert(s[0] == y);
            } else {
                assert(rt[k - 1] == y);
                assert(rt.contains(y));
                if y != x {
                    let m = choose|m: int| 0 <= m < t.len() && t[m] == y;
                    assert(s[m + 1] == y);
                }
            }
        }
        assert forall|y: Seq<char>| s.contains(y) || y == x implies #[trigger] r.contains(y) by {
            if s.contains(y) || y == x {
                if y == x || t.contains(y) {
                    assert(rt.contains(y));
                    let m = choose|m: int| 0 <= m < rt.len() && rt[m] == y;
                    assert(r[m + 1] == y);
                } else {
                    let k = choose|i: int| 0 <= i < s.len() && s[i] == y;
                    if k == 0 {
                        assert(r[0] == y);
                    } else {
                        assert(t[k - 1] == y);
                    }
                }
            }
        }
    }
}

/// Sorting with deduplication yields a strictly ascending sequence holding
/// exactly the elements of the input.
pub proof fn lemma_sort_dedup(s: Seq<Seq<char>>, n: int)
    requires
        0 <= n <= s.len(),
    ensures
        strictly_sorted(sort_dedup_upto(s, n)),
        forall|y: Seq<char>|
            #[trigger] sort_dedup_upto(s, n).contains(y) <==> exists|i: int|
                0 <= i < n && s[i] == y,
    decreases n,
{
    if n > 0 {
        lemma_sort_dedup(s, n - 1);
        lemma_insert_sorted(sort_dedup_upto(s, n - 1), s[n - 1]);
        let p = sort_dedup_upto(s, n - 1);
        let q = sort_dedup_upto(s, n);
        assert forall|y: Seq<char>| #[trigger] q.contains(y) implies exists|i: int|
            0 <= i < n && s[i] == y by {
            if p.contains(y) {
                let i = choose|i: int| 0 <= i < n - 1 && s[i] == y;
                assert(0 <= i < n && s[i] == y);
            } else {
                assert(s[n - 1] == y);
            }
        }
        assert forall|y: Seq<char>| exists|i: int| 0 <= i < n && s[i] == y implies #[trigger] q
            .contains(y) by {
            let i = choose|i: int| 0 <= i < n && s[i] == y;
            if i < n - 1 {
                assert(p.contains(y));
            }
        }
    }
}

/// Compares two strings in lexicographic order.
pub fn str_lex_lt(a: &str, b: &str) -> (r: bool)
    ensures
        r == lex_lt(a@, b@),
{
    let la = a.unicode_len();
    let lb = b.unicode_len();
    let mut i: usize = 0;
    proof {
        assert(a@.skip(0) =~= a@);
        assert(b@.skip(0) =~= b@);
    }
    while i < la && i < lb
        invariant
            0 <= i <= la,
            0 <= i <= lb,
            la == a@.len(),
            lb == b@.len(),
            lex_lt(a@, b@) == lex_lt(a@.skip(i as int), b@.skip(i as int)),
        decreases la - i,
    {
        let ca = a.get_char(i);
        let cb = b.get_char(i);
        if ca != cb {
            return ca < cb;
        }
        proof {
            assert(a@.skip(i as int).drop_first() =~= a@.skip(i + 1));
            assert(b@.skip(i as int).drop_first() =~= b@.skip(i + 1));
        }
        i += 1;
    }
    la < lb
}

/// Inserts `x` at its position in the sorted vector `v`, dropping it when
/// already present.
fn insert_sorted_vec(v: Vec<String>, x: String) -> (r: Vec<String>)
    ensures
        r.deep_view() == insert_sorted(v.deep_view(), x@),
    decreases v@.len(),
{
    if v.len() == 0 {
        let mut r: Vec<String> = Vec::new();
        r.push(x);
        proof {
            assert(r.deep_view() =~= insert_sorted(v.deep_view(), x@));
        }
        r
    } else {
        proof {
            assert(v.deep_view()[0] == v@[0]@);
        }
        let eq_first = x == v[0];
        if eq_first {
            v
        } else if str_lex_lt(x.as_str(), v[0].as_str()) {
            let ghost v_view = v.deep_view();
            let mut r = v;
            r.insert(0, x);
            proof {
                assert(r.deep_view() =~= seq![x@] + v_view);
            }
            r
        } else {
            let mut v2 = v;
            let first = v2.remove(0);
            let ghost tail_view = v2.deep_view();
            proof {
                assert(tail_view =~= v.deep_view().drop_first());
            }
            let mut r = insert_sorted_vec(v2, x);
            r.insert(0, first);
            proof {
                assert(r.deep_view() =~= seq![first@] + insert_sorted(tail_view, x@));
            }
            r
        }
    }
}

/// Whether `list` holds a string whose text is `x`'s.
pub fn contains_string(list: &Vec<String>, x: &String) -> (r: bool)
    ensures
        r == list.deep_view().contains(x@),
{
    let mut i: usize = 0;
    while i < list.len()
        invariant
            0 <= i <= list@.len(),
            forall|j: int| 0 <= j < i ==> list@[j]@ != x@,
        decreases list@.len() - i,
    {
        if list[i] == *x {
            proof {
                assert(list.deep_view()[i as int] == x@);
            }
            return true;
        }
        i += 1;
    }
    proof {
        assert forall|k: int| 0 <= k < list.deep_view().len() implies list.deep_view()[k] != x@ by {
            assert(list.deep_view()[k] == list@[k]@);
        }
    }
    false
}

/// Sorts `addrs` ascending and drops duplicates.
pub fn sort_dedup_strings(addrs: Vec<String>) -> (r: Vec<String>)
    ensures
        r.deep_view() == sorted_unique(addrs.deep_view()),
        strictly_sorted(r.deep_view()),
{
    let ghost orig = addrs.deep_view();
    let mut rest = addrs;
    let mut r: Vec<String> = Vec::new();
    let ghost mut i: int = 0;
    proof {
        assert(r.deep_view() =~= sort_dedup_upto(orig, 0));
        assert(rest.deep_view() =~= orig.skip(0));
    }
    while rest.len() > 0
        invariant
            0 <= i <= orig.len(),
            i + rest@.len() == orig.len(),
            rest.deep_view() == orig.skip(i),
            r.deep_view() == sort_dedup_upto(orig, i),
        decreases rest@.len(),
    {
        let ghost prev = rest.deep_view();
        let ghost prev_vec = rest@;
        let a = rest.remove(0);
        proof {
            assert(a@ == prev[0]);
            assert(a@ == orig[i]);
            assert forall|k: int| 0 <= k < rest@.len() implies #[trigger] rest.deep_view()[k]
                == orig.skip(i + 1)[k] by {
                assert(rest@[k] == prev_vec[k + 1]);
                assert(rest.deep_view()[k] == rest@[k]@);
                assert(prev[k + 1] == prev_vec[k + 1]@);
                assert(orig.skip(i + 1)[k] == orig[i + 1 + k]);
                assert(prev[k + 1] == orig.skip(i)[k + 1]);
            }
            assert(rest.deep_view() =~= orig.skip(i + 1));
        }
        r = insert_sorted_vec(r, a);
        proof {
            i = i + 1;
        }
    }
    proof {
        lemma_sort_dedup(orig, orig.len() as int);
    }
    r
}

} // verus!
