//! Lexicographic order on strings, with verified sorting, deduplication and
//! joining of string vectors. These are the building blocks the canonicalizer
//! uses at every level: labels, property entries, relationship entries, and
//! the final node records.

use vstd::prelude::*;
use vstd::relations::{sorted_by, total_ordering};

verus! {

/// Lexicographic "less or equal" on character sequences, ordering characters
/// by their unicode scalar value.
pub open spec fn lex_leq(a: Seq<char>, b: Seq<char>) -> bool
    decreases a.len(),
{
    if a.len() == 0 {
        true
    } else if b.len() == 0 {
        false
    } else if a[0] != b[0] {
        (a[0] as u32) < (b[0] as u32)
    } else {
        lex_leq(a.drop_first(), b.drop_first())
    }
}

/// The lexicographic order as a first-class relation, as the sorting
/// functions of `vstd` expect it.
pub open spec fn lex_leq_fn() -> spec_fn(Seq<char>, Seq<char>) -> bool {
    |a: Seq<char>, b: Seq<char>| lex_leq(a, b)
}

pub proof fn lemma_lex_leq_reflexive(a: Seq<char>)
    ensures
        lex_leq(a, a),
    decreases a.len(),
{
    if a.len() > 0 {
        lemma_lex_leq_reflexive(a.drop_first());
    }
}

pub proof fn lemma_lex_leq_antisymmetric(a: Seq<char>, b: Seq<char>)
    requires
        lex_leq(a, b),
        lex_leq(b, a),
    ensures
        a == b,
    decreases a.len(),
{
    if a.len() == 0 {
        assert(b.len() == 0);
        assert(a =~= b);
    } else {
        assert(b.len() > 0);
        assert(a[0] == b[0]);
        lemma_lex_leq_antisymmetric(a.drop_first(), b.drop_first());
        assert(a =~= seq![a[0]] + a.drop_first());
        assert(b =~= seq![b[0]] + b.drop_first());
    }
}

pub proof fn lemma_lex_leq_transitive(a: Seq<char>, b: Seq<char>, c: Seq<char>)
    requires
        lex_leq(a, b),
        lex_leq(b, c),
    ensures
        lex_leq(a, c),
    decreases a.len(),
{
    if a.len() == 0 {
    } else if b.len() == 0 {
    } else if c.len() == 0 {
    } else {
        if a[0] == b[0] && b[0] == c[0] {
            lemma_lex_leq_transitive(a.drop_first(), b.drop_first(), c.drop_first());
        }
    }
}

pub proof fn lemma_lex_leq_connected(a: Seq<char>, b: Seq<char>)
    ensures
        lex_leq(a, b) || lex_leq(b, a),
    decreases a.len(),
{
    if a.len() > 0 && b.len() > 0 {
        if a[0] == b[0] {
            lemma_lex_leq_connected(a.drop_first(), b.drop_first());
        } else {
            assert((a[0] as u32) != (b[0] as u32)) by {
                if (a[0] as u32) == (b[0] as u32) {
                    vstd::utf8::char_u32_cast(a[0], a[0] as u32);
                    vstd::utf8::char_u32_cast(b[0], b[0] as u32);
                }
            }
        }
    }
}

/// The lexicographic order is a total order, so sorting by it is
/// deterministic: any two sorted sequences with the same elements are equal.
pub proof fn lemma_lex_leq_total_ordering()
    ensures
        total_ordering(lex_leq_fn()),
{
    let leq = lex_leq_fn();
    assert forall|a: Seq<char>| #[trigger] leq(a, a) by {
        lemma_lex_leq_reflexive(a);
    }
    assert forall|a: Seq<char>, b: Seq<char>| #[trigger] leq(a, b) && #[trigger] leq(b, a)
        implies a == b by {
        lemma_lex_leq_antisymmetric(a, b);
    }
    assert forall|a: Seq<char>, b: Seq<char>, c: Seq<char>|
        #[trigger] leq(a, b) && #[trigger] leq(b, c) implies leq(a, c) by {
        lemma_lex_leq_transitive(a, b, c);
    }
    assert forall|a: Seq<char>, b: Seq<char>| !(#[trigger] leq(a, b)) implies leq(b, a) by {
        lemma_lex_leq_connected(a, b);
    }
}

/// Strings sorted into lexicographic order.
pub open spec fn sort_strs(s: Seq<Seq<char>>) -> Seq<Seq<char>> {
    s.sort_by(lex_leq_fn())
}

/// Collapsing runs of equal adjacent strings to a single occurrence; on a
/// sorted sequence this removes every exact duplicate.
pub open spec fn dedup_strs(s: Seq<Seq<char>>) -> Seq<Seq<char>>
    decreases s.len(),
{
    if s.len() == 0 {
        s
    } else {
        let rest = dedup_strs(s.drop_last());
        if rest.len() > 0 && rest.last() == s.last() {
            rest
        } else {
            rest.push(s.last())
        }
    }
}

/// Deduplication keeps exactly the elements of the input: nothing is lost
/// and nothing new appears.
pub proof fn lemma_dedup_strs_contains(s: Seq<Seq<char>>, x: Seq<char>)
    ensures
        dedup_strs(s).contains(x) <==> s.contains(x),
    decreases s.len(),
{
    if s.len() > 0 {
        lemma_dedup_strs_contains(s.drop_last(), x);
        let rest = dedup_strs(s.drop_last());
        let d = dedup_strs(s);
        if d.contains(x) {
            let p = choose|p: int| 0 <= p < d.len() && d[p] == x;
            if p < rest.len() {
                assert(rest[p] == x);
                assert(rest.contains(x));
                let q = choose|q: int| 0 <= q < s.drop_last().len() && s.drop_last()[q] == x;
                assert(s[q] == x);
                assert(s.contains(x));
            } else {
                assert(d[p] == s.last());
                assert(s[s.len() - 1] == x);
                assert(s.contains(x));
            }
        }
        if s.contains(x) {
            let q = choose|q: int| 0 <= q < s.len() && s[q] == x;
            if q < s.len() - 1 {
                assert(s.drop_last()[q] == x);
                assert(s.drop_last().contains(x));
                let p = choose|p: int| 0 <= p < rest.len() && rest[p] == x;
                assert(d[p] == x);
                assert(d.contains(x));
            } else {
                if rest.len() > 0 && rest.last() == s.last() {
                    assert(d[rest.len() - 1] == x);
                } else {
                    assert(d[rest.len() as int] == x);
                }
                assert(d.contains(x));
            }
        }
    }
}

/// On a sorted input, deduplication yields a sorted sequence without any
/// duplicate at all.
pub proof fn lemma_dedup_strs_sorted(s: Seq<Seq<char>>)
    requires
        sorted_by(s, lex_leq_fn()),
    ensures
        sorted_by(dedup_strs(s), lex_leq_fn()),
        dedup_strs(s).no_duplicates(),
    decreases s.len(),
{
    let leq = lex_leq_fn();
    if s.len() > 0 {
        let t = s.drop_last();
        assert(sorted_by(t, leq)) by {
            assert forall|i: int, j: int| 0 <= i < j < t.len() implies #[trigger] leq(
                t[i],
                t[j],
            ) by {
                assert(leq(s[i], s[j]));
            }
        }
        lemma_dedup_strs_sorted(t);
        let rest = dedup_strs(t);
        let x = s.last();
        assert forall|k: int| 0 <= k < rest.len() implies #[trigger] leq(rest[k], x) by {
            assert(rest.contains(rest[k]));
            lemma_dedup_strs_contains(t, rest[k]);
            let q = choose|q: int| 0 <= q < t.len() && t[q] == rest[k];
            if q < s.len() - 1 {
                assert(leq(s[q], s[s.len() - 1]));
            } else {
                lemma_lex_leq_reflexive(x);
            }
        }
        if rest.len() > 0 && rest.last() == x {
        } else {
            let d = rest.push(x);
            assert(sorted_by(d, leq)) by {
                assert forall|i: int, j: int| 0 <= i < j < d.len() implies #[trigger] leq(
                    d[i],
                    d[j],
                ) by {
                    if j < rest.len() {
                        assert(leq(rest[i], rest[j]));
                    } else {
                        assert(leq(rest[i], x));
                    }
                }
            }
            assert(d.no_duplicates()) by {
                assert forall|i: int, j: int|
                    0 <= i < d.len() && 0 <= j < d.len() && i != j implies d[i] != d[j] by {
                    let a = if i < j {
                        i
                    } else {
                        j
                    };
                    let b = if i < j {
                        j
                    } else {
                        i
                    };
                    if b == rest.len() && rest[a] == x {
                        assert(leq(rest[a], rest[rest.len() - 1]) || a == rest.len() - 1) by {
                            if a < rest.len() - 1 {
                                assert(leq(rest[a], rest[rest.len() - 1]));
                            }
                        }
                        if a < rest.len() - 1 {
                            assert(leq(x, rest.last()));
                            assert(leq(rest.last(), x));
                            lemma_lex_leq_antisymmetric(rest.last(), x);
                            assert(false);
                        } else {
                            assert(rest.last() == x);
                            assert(false);
                        }
                    }
                }
            }
        }
    }
}

/// Two sorted sequences without duplicates that contain the same strings are
/// equal.
pub proof fn lemma_sorted_no_dup_set_unique(a: Seq<Seq<char>>, b: Seq<Seq<char>>)
    requires
        sorted_by(a, lex_leq_fn()),
        sorted_by(b, lex_leq_fn()),
        a.no_duplicates(),
        b.no_duplicates(),
        forall|x: Seq<char>| a.contains(x) <==> #[trigger] b.contains(x),
    ensures
        a == b,
{
    broadcast use vstd::seq_lib::group_to_multiset_ensures;
    broadcast use vstd::multiset::group_multiset_axioms;

    a.lemma_multiset_has_no_duplicates();
    b.lemma_multiset_has_no_duplicates();
    assert(a.to_multiset() =~= b.to_multiset()) by {
        assert forall|x: Seq<char>|
            a.to_multiset().count(x) == #[trigger] b.to_multiset().count(x) by {
            if a.contains(x) {
                assert(a.to_multiset().count(x) == 1);
                assert(b.contains(x));
                assert(b.to_multiset().count(x) == 1);
            } else {
                assert(!b.contains(x));
                assert(a.to_multiset().count(x) == 0);
                assert(b.to_multiset().count(x) == 0);
            }
        }
    }
    lemma_lex_leq_total_ordering();
    vstd::seq_lib::lemma_sorted_unique(a, b, lex_leq_fn());
}

/// The strings of `items` concatenated in order with `sep` between
/// consecutive items; empty when `items` is empty.
pub open spec fn join_strs(items: Seq<Seq<char>>, sep: Seq<char>) -> Seq<char>
    decreases items.len(),
{
    if items.len() == 0 {
        Seq::empty()
    } else if items.len() == 1 {
        items[0]
    } else {
        join_strs(items.drop_last(), sep) + sep + items.last()
    }
}

/// Extending a mapped prefix by the image of the next element gives the
/// mapped next prefix; the step every rendering loop of this crate takes.
pub proof fn lemma_map_take_snoc<A, B>(s: Seq<A>, i: int, prev: Seq<B>, x: B, f: spec_fn(A) -> B)
    requires
        0 <= i < s.len(),
        prev == s.take(i).map_values(f),
        x == f(s[i]),
    ensures
        prev.push(x) == s.take(i + 1).map_values(f),
{
    let lhs = prev.push(x);
    let rhs = s.take(i + 1).map_values(f);
    assert(lhs.len() == rhs.len());
    assert forall|q: int| 0 <= q < lhs.len() implies lhs[q] == rhs[q] by {
        if q < i {
            assert(prev[q] == f(s.take(i)[q]));
            assert(s.take(i)[q] == s[q]);
            assert(rhs[q] == f(s.take(i + 1)[q]));
            assert(s.take(i + 1)[q] == s[q]);
        } else {
            assert(rhs[q] == f(s.take(i + 1)[i]));
            assert(s.take(i + 1)[i] == s[i]);
        }
    }
    assert(lhs =~= rhs);
}

/// Lexicographic comparison of two strings.
pub fn str_leq(a: &str, b: &str) -> (r: bool)
    ensures
        r == lex_leq(a@, b@),
{
    let a_len = a.unicode_len();
    let b_len = b.unicode_len();
    let mut i: usize = 0;
    proof {
        assert(a@.skip(0) =~= a@);
        assert(b@.skip(0) =~= b@);
    }
    loop
        invariant
            i <= a_len,
            i <= b_len,
            a_len == a@.len(),
            b_len == b@.len(),
            lex_leq(a@, b@) == lex_leq(a@.skip(i as int), b@.skip(i as int)),
        decreases a_len - i,
    {
        if i == a_len {
            assert(a@.skip(i as int).len() == 0);
            return true;
        }
        if i == b_len {
            assert(b@.skip(i as int).len() == 0);
            assert(a@.skip(i as int).len() > 0);
            return false;
        }
        let ca = a.get_char(i);
        let cb = b.get_char(i);
        assert(a@.skip(i as int)[0] == a@[i as int]);
        assert(b@.skip(i as int)[0] == b@[i as int]);
        if ca != cb {
            return (ca as u32) < (cb as u32);
        }
        proof {
            assert(a@.skip(i as int).drop_first() =~= a@.skip(i as int + 1));
            assert(b@.skip(i as int).drop_first() =~= b@.skip(i as int + 1));
        }
        i = i + 1;
    }
}

/// Sorts strings into lexicographic order by insertion, so that the result
/// is exactly `sort_strs` of the input.
pub fn sort_strings(v: Vec<String>) -> (r: Vec<String>)
    ensures
        r.deep_view() == sort_strs(v.deep_view()),
{
    broadcast use vstd::seq_lib::group_to_multiset_ensures;

    let ghost dv = v.deep_view();
    let mut out: Vec<String> = Vec::new();
    let mut i: usize = 0;
    proof {
        lemma_lex_leq_total_ordering();
        assert(dv.take(0) =~= Seq::<Seq<char>>::empty());
        assert(out.deep_view() =~= Seq::<Seq<char>>::empty());
        assert(Seq::<Seq<char>>::empty().to_multiset() =~= out.deep_view().to_multiset());
    }
    while i < v.len()
        invariant
            i <= v@.len(),
            dv == v.deep_view(),
            dv.len() == v@.len(),
            sorted_by(out.deep_view(), lex_leq_fn()),
            out.deep_view().to_multiset() == dv.take(i as int).to_multiset(),
        decreases v@.len() - i,
    {
        let x = v[i].clone();
        assert(x@ == dv[i as int]);
        let ghost old_dv = out.deep_view();
        let mut j: usize = 0;
        while j < out.len() && str_leq(out[j].as_str(), x.as_str())
            invariant
                j <= out@.len(),
                out.deep_view() == old_dv,
                out@.len() == old_dv.len(),
                forall|k: int| 0 <= k < j ==> lex_leq(#[trigger] old_dv[k], x@),
            decreases out@.len() - j,
        {
            assert(lex_leq(old_dv[j as int], x@));
            j = j + 1;
        }
        proof {
            if j < old_dv.len() {
                lemma_lex_leq_connected(old_dv[j as int], x@);
                assert(lex_leq(x@, old_dv[j as int]));
            }
        }
        out.insert(j, x);
        proof {
            broadcast use vstd::seq_lib::group_to_multiset_ensures;

            let new_dv = out.deep_view();
            assert(new_dv =~= old_dv.insert(j as int, dv[i as int]));
            vstd::seq_lib::to_multiset_insert(old_dv, j as int, dv[i as int]);
            assert(dv.take(i + 1) =~= dv.take(i as int).push(dv[i as int]));
            assert(new_dv.to_multiset() == dv.take(i + 1).to_multiset());
            old_dv.insert_ensures(j as int, dv[i as int]);
            assert forall|p: int, q: int| 0 <= p < q < new_dv.len() implies #[trigger] lex_leq_fn()(
                new_dv[p],
                new_dv[q],
            ) by {
                let leq = lex_leq_fn();
                if q < j {
                    assert(leq(old_dv[p], old_dv[q]));
                } else if p > j {
                    assert(leq(old_dv[p - 1], old_dv[q - 1]));
                } else if p < j && q == j {
                    assert(leq(old_dv[p], x@));
                } else if p == j && q > j {
                    assert(leq(x@, old_dv[j as int]));
                    if j as int != q - 1 {
                        assert(leq(old_dv[j as int], old_dv[q - 1]));
                        lemma_lex_leq_transitive(x@, old_dv[j as int], old_dv[q - 1]);
                    }
                } else if p < j && q > j {
                    assert(leq(old_dv[p], x@));
                    assert(leq(x@, old_dv[j as int]));
                    if j as int != q - 1 {
                        assert(leq(old_dv[j as int], old_dv[q - 1]));
                        lemma_lex_leq_transitive(x@, old_dv[j as int], old_dv[q - 1]);
                    }
                    assert(leq(x@, old_dv[q - 1]));
                    lemma_lex_leq_transitive(old_dv[p], x@, old_dv[q - 1]);
                }
            }
        }
        i = i + 1;
    }
    proof {
        assert(dv.take(i as int) =~= dv);
        dv.lemma_sort_by_ensures(lex_leq_fn());
        vstd::seq_lib::lemma_sorted_unique(out.deep_view(), sort_strs(dv), lex_leq_fn());
        assert(out.deep_view() == sort_strs(dv));
    }
    out
}

/// Removes adjacent duplicates, so that the result is exactly `dedup_strs`
/// of the input.
pub fn dedup_strings(v: Vec<String>) -> (r: Vec<String>)
    ensures
        r.deep_view() == dedup_strs(v.deep_view()),
{
    let ghost dv = v.deep_view();
    let mut out: Vec<String> = Vec::new();
    let mut i: usize = 0;
    proof {
        assert(dv.take(0) =~= Seq::<Seq<char>>::empty());
        assert(out.deep_view() =~= dedup_strs(dv.take(0)));
    }
    while i < v.len()
        invariant
            i <= v@.len(),
            dv == v.deep_view(),
            dv.len() == v@.len(),
            out.deep_view() == dedup_strs(dv.take(i as int)),
            out@.len() == out.deep_view().len(),
        decreases v@.len() - i,
    {
        let ghost old_dv = out.deep_view();
        let keep = if out.len() == 0 {
            true
        } else {
            !out[out.len() - 1].eq(&v[i])
        };
        if keep {
            let x = v[i].clone();
            out.push(x);
            proof {
                assert(out.deep_view() =~= old_dv.push(dv[i as int]));
            }
        }
        proof {
            assert(dv.take(i + 1).drop_last() =~= dv.take(i as int));
            assert(dv.take(i + 1).last() == dv[i as int]);
        }
        i = i + 1;
    }
    proof {
        assert(dv.take(i as int) =~= dv);
    }
    out
}

/// Joins strings with a separator, so that the result is exactly
/// `join_strs` of the input.
pub fn join_strings(items: &Vec<String>, sep: &str) -> (r: String)
    ensures
        r@ == join_strs(items.deep_view(), sep@),
{
    let ghost dv = items.deep_view();
    let mut r = String::new();
    let mut i: usize = 0;
    proof {
        assert(dv.take(0) =~= Seq::<Seq<char>>::empty());
    }
    while i < items.len()
        invariant
            i <= items@.len(),
            dv == items.deep_view(),
            dv.len() == items@.len(),
            r@ == join_strs(dv.take(i as int), sep@),
        decreases items@.len() - i,
    {
        if i > 0 {
            r.append(sep);
        }
        r.append(items[i].as_str());
        proof {
            assert(dv.take(i + 1).drop_last() =~= dv.take(i as int));
            assert(dv.take(i + 1).last() == dv[i as int]);
            if i == 0 {
                assert(r@ =~= dv[0]);
                assert(dv.take(1)[0] == dv[0]);
            }
        }
        i = i + 1;
    }
    proof {
        assert(dv.take(i as int) =~= dv);
    }
    r
}

} // verus!
