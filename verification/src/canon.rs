//! Canonical ordering of path strings.
//!
//! Declared input and output lists are order-insensitive for identity, so
//! they are brought into a canonical form before fingerprinting: sorted
//! lexicographically and deduplicated. A strictly sorted sequence is uniquely
//! determined by the set of its elements, which is what makes identity
//! independent of declaration order.

use vstd::prelude::*;

verus! {

/// Lexicographic order on strings, by Unicode code point.
pub open spec fn str_le(a: Seq<char>, b: Seq<char>) -> bool
    decreases a.len(),
{
    if a.len() == 0 {
        true
    } else if b.len() == 0 {
        false
    } else if a[0] == b[0] {
        str_le(a.drop_first(), b.drop_first())
    } else {
        (a[0] as u32) < (b[0] as u32)
    }
}

/// Strict lexicographic order.
pub open spec fn str_lt(a: Seq<char>, b: Seq<char>) -> bool {
    str_le(a, b) && a != b
}

/// The sequence is sorted, allowing equal neighbours.
pub open spec fn sorted_le(l: Seq<Seq<char>>) -> bool {
    forall|i: int, j: int| 0 <= i < j < l.len() ==> str_le(l[i], l[j])
}

/// The sequence is strictly sorted: sorted and free of duplicates.
pub open spec fn strict_sorted(l: Seq<Seq<char>>) -> bool {
    forall|i: int, j: int| 0 <= i < j < l.len() ==> str_lt(l[i], l[j])
}

/// The order is total: of any two strings, one is less or equal to the other.
pub proof fn lemma_str_le_total(a: Seq<char>, b: Seq<char>)
    ensures
        str_le(a, b) || str_le(b, a),
    decreases a.len(),
{
    if a.len() == 0 || b.len() == 0 {
    } else if a[0] == b[0] {
        lemma_str_le_total(a.drop_first(), b.drop_first());
    } else {
        if a[0] as u32 == b[0] as u32 {
            vstd::utf8::char_u32_cast(a[0], a[0] as u32);
            vstd::utf8::char_u32_cast(b[0], b[0] as u32);
        }
    }
}

/// The order is antisymmetric: mutual order implies equality.
pub proof fn lemma_str_le_antisym(a: Seq<char>, b: Seq<char>)
    requires
        str_le(a, b),
        str_le(b, a),
    ensures
        a == b,
    decreases a.len(),
{
    if a.len() == 0 {
        assert(b.len() == 0);
        assert(a =~= b);
    } else {
        assert(b.len() > 0);
        assert(a[0] == b[0]);
        lemma_str_le_antisym(a.drop_first(), b.drop_first());
        assert(a.drop_first().len() == a.len() - 1);
        assert(b.drop_first().len() == b.len() - 1);
        assert(a.len() == b.len());
        assert forall|i: int| 0 <= i < a.len() implies a[i] == b[i] by {
            if i > 0 {
                assert(a.drop_first()[i - 1] == a[i]);
                assert(b.drop_first()[i - 1] == b[i]);
            }
        }
        assert(a =~= b);
    }
}

/// The order is transitive.
pub proof fn lemma_str_le_trans(a: Seq<char>, b: Seq<char>, c: Seq<char>)
    requires
        str_le(a, b),
        str_le(b, c),
    ensures
        str_le(a, c),
    decreases a.len(),
{
    if a.len() == 0 || b.len() == 0 || c.len() == 0 {
    } else if a[0] == b[0] && b[0] == c[0] {
        lemma_str_le_trans(a.drop_first(), b.drop_first(), c.drop_first());
    }
}

/// A strictly sorted sequence is determined by its element set: two strictly
/// sorted sequences with the same members are equal. This is why identity is
/// independent of the order in which inputs or outputs were declared.
pub proof fn lemma_strict_sorted_unique(s: Seq<Seq<char>>, t: Seq<Seq<char>>)
    requires
        strict_sorted(s),
        strict_sorted(t),
        forall|x: Seq<char>| s.contains(x) <==> t.contains(x),
    ensures
        s =~= t,
    decreases s.len(),
{
    if s.len() == 0 {
        if t.len() > 0 {
            assert(t.contains(t[0]));
        }
    } else {
        assert(s.contains(s[0]));
        assert(t.contains(s[0]));
        let k = choose|k: int| 0 <= k < t.len() && t[k] == s[0];
        assert(t.contains(t[0]));
        assert(s.contains(t[0]));
        let m = choose|m: int| 0 <= m < s.len() && s[m] == t[0];
        if k > 0 {
            assert(str_lt(t[0], t[k]));
        }
        if m > 0 {
            assert(str_lt(s[0], s[m]));
        }
        lemma_str_le_total(s[0], t[0]);
        if k == 0 {
            assert(s[0] == t[0]);
        } else if m == 0 {
            assert(s[0] == t[0]);
        } else {
            lemma_str_le_antisym(s[0], t[0]);
        }
        let s1 = s.drop_first();
        let t1 = t.drop_first();
        assert forall|x: Seq<char>| s1.contains(x) implies t1.contains(x) by {
            let i = choose|i: int| 0 <= i < s1.len() && s1[i] == x;
            assert(s[i + 1] == x);
            assert(s.contains(x));
            assert(t.contains(x));
            let j = choose|j: int| 0 <= j < t.len() && t[j] == x;
            assert(str_lt(s[0], s[i + 1]));
            if j == 0 {
                assert(x == t[0] && t[0] == s[0]);
                assert(false);
            }
            assert(t1[j - 1] == x);
        }
        assert forall|x: Seq<char>| t1.contains(x) implies s1.contains(x) by {
            let j = choose|j: int| 0 <= j < t1.len() && t1[j] == x;
            assert(t[j + 1] == x);
            assert(t.contains(x));
            assert(s.contains(x));
            let i = choose|i: int| 0 <= i < s.len() && s[i] == x;
            assert(str_lt(t[0], t[j + 1]));
            if i == 0 {
                assert(false);
            }
            assert(s1[i - 1] == x);
        }
        assert(strict_sorted(s1)) by {
            assert forall|i: int, j: int| 0 <= i < j < s1.len() implies str_lt(s1[i], s1[j]) by {
                assert(s1[i] == s[i + 1] && s1[j] == s[j + 1]);
            }
        }
        assert(strict_sorted(t1)) by {
            assert forall|i: int, j: int| 0 <= i < j < t1.len() implies str_lt(t1[i], t1[j]) by {
                assert(t1[i] == t[i + 1] && t1[j] == t[j + 1]);
            }
        }
        lemma_strict_sorted_unique(s1, t1);
        assert forall|i: int| 0 <= i < s.len() implies s[i] == t[i] by {
            if i > 0 {
                assert(s1[i - 1] == s[i]);
                assert(t1[i - 1] == t[i]);
            }
        }
        assert(s =~= t);
    }
}

/// Relies on `itertools::Itertools::sorted`, which sorts by `String`'s `Ord`:
/// lexicographic by byte, which on UTF-8 text coincides with lexicographic
/// by code point. The result holds exactly the input strings, in sorted order.
#[verifier::external_body]
fn sorted_strings(v: &Vec<String>) -> (r: Vec<String>)
    ensures
        r.deep_view().to_multiset() == v.deep_view().to_multiset(),
        sorted_le(r.deep_view()),
{
    itertools::Itertools::sorted(v.iter().cloned()).collect()
}

/// Sort a list of path strings and drop duplicates, yielding the canonical
/// (strictly sorted) form with exactly the members of the input.
pub fn canonicalize(v: &Vec<String>) -> (r: Vec<String>)
    ensures
        strict_sorted(r.deep_view()),
        forall|x: Seq<char>|
            #![trigger r.deep_view().contains(x)]
            #![trigger v.deep_view().contains(x)]
            r.deep_view().contains(x) <==> v.deep_view().contains(x),
{
    let ghost orig = v.deep_view();
    let s = sorted_strings(v);
    proof {
        broadcast use vstd::seq_lib::group_to_multiset_ensures;

        assert forall|x: Seq<char>| s.deep_view().contains(x) <==> orig.contains(x) by {
            assert(s.deep_view().contains(x) <==> s.deep_view().to_multiset().count(x) > 0);
            assert(orig.contains(x) <==> orig.to_multiset().count(x) > 0);
        }
    }
    let mut r: Vec<String> = Vec::new();
    let mut i: usize = 0;
    while i < s.len()
        invariant
            i <= s.len(),
            sorted_le(s.deep_view()),
            strict_sorted(r.deep_view()),
            forall|x: Seq<char>| r.deep_view().contains(x) <==> s.deep_view().subrange(0, i as int).contains(x),
            r.len() > 0 ==> i > 0 && r.deep_view().last() == s.deep_view()[i - 1],
        decreases s.len() - i,
    {
        let ghost rv = r.deep_view();
        let ghost sv = s.deep_view();
        let keep: bool = if r.len() == 0 {
            true
        } else {
            let last_idx = r.len() - 1;
            !(r[last_idx] == s[i])
        };
        if keep {
            let ghost x_new = sv[i as int];
            r.push(s[i].clone());
            proof {
                assert(r.deep_view() =~= rv.push(x_new));
                assert(strict_sorted(r.deep_view())) by {
                    assert forall|a: int, b: int| 0 <= a < b < r.deep_view().len() implies str_lt(
                        r.deep_view()[a],
                        r.deep_view()[b],
                    ) by {
                        if b < rv.len() {
                        } else {
                            // b is the new element; a indexes an old one, each of
                            // which is at most the old last, which is sv[i-1] < sv[i].
                            if rv.len() > 0 {
                                assert(rv.last() == sv[i - 1]);
                                assert(str_le(sv[i - 1], sv[i as int]));
                                assert(rv.last() != sv[i as int]);
                                assert(str_lt(rv.last(), sv[i as int]));
                                if a < rv.len() - 1 {
                                    assert(str_lt(rv[a], rv.last()));
                                    lemma_str_le_trans(rv[a], rv.last(), sv[i as int]);
                                    assert(rv[a] != sv[i as int]) by {
                                        if rv[a] == sv[i as int] {
                                            lemma_str_le_antisym(rv[a], rv.last());
                                            assert(false);
                                        }
                                    }
                                }
                            }
                        }
                    }
                }
                assert forall|x: Seq<char>|
                    r.deep_view().contains(x) <==> sv.subrange(0, i + 1).contains(x) by {
                    assert(sv.subrange(0, i + 1).drop_last() =~= sv.subrange(0, i as int));
                    if r.deep_view().contains(x) {
                        let ii = choose|ii: int| 0 <= ii < r.deep_view().len() && r.deep_view()[ii] == x;
                        if ii < rv.len() {
                            assert(rv.contains(x));
                            let jj = choose|jj: int| 0 <= jj < i && sv.subrange(0, i as int)[jj] == x;
                            assert(sv.subrange(0, i + 1)[jj] == x);
                        } else {
                            assert(sv.subrange(0, i + 1)[i as int] == x);
                        }
                    }
                    if sv.subrange(0, i + 1).contains(x) {
                        let jj = choose|jj: int|
                            0 <= jj < i + 1 && #[trigger] sv.subrange(0, i + 1)[jj] == x;
                        if jj < i {
                            assert(sv.subrange(0, i as int)[jj] == x);
                            assert(rv.contains(x));
                            let ii = choose|ii: int| 0 <= ii < rv.len() && rv[ii] == x;
                            assert(r.deep_view()[ii] == x);
                        } else {
                            assert(r.deep_view().last() == x);
                        }
                    }
                }
            }
        } else {
            proof {
                let last_idx = rv.len() - 1;
                assert(rv.last() == sv[i as int]);
                assert forall|x: Seq<char>|
                    rv.contains(x) <==> sv.subrange(0, i + 1).contains(x) by {
                    assert(sv.subrange(0, i + 1).drop_last() =~= sv.subrange(0, i as int));
                    if sv.subrange(0, i + 1).contains(x) {
                        let jj = choose|jj: int|
                            0 <= jj < i + 1 && #[trigger] sv.subrange(0, i + 1)[jj] == x;
                        if jj < i {
                            assert(sv.subrange(0, i as int)[jj] == x);
                        } else {
                            assert(x == sv[i as int]);
                            assert(rv.last() == x);
                        }
                    }
                    if rv.contains(x) {
                        let jj = choose|jj: int| 0 <= jj < i && sv.subrange(0, i as int)[jj] == x;
                        assert(sv.subrange(0, i + 1)[jj] == x);
                    }
                }
            }
        }
        i = i + 1;
    }
    proof {
        assert(s.deep_view().subrange(0, s.deep_view().len() as int) =~= s.deep_view());
    }
    r
}

} // verus!
