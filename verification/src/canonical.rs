//! The canonical form of a list of feature names: each name once, in
//! increasing order.

use crate::order::{
    feature_before, lemma_feature_before_asymmetric, lemma_feature_before_irreflexive,
    lemma_feature_before_total, lemma_feature_before_transitive, lemma_not_after_transitive,
    string_before,
};
use vstd::prelude::*;
use vstd::seq_lib::*;
use vstd::string::*;

verus! {

/// No name stands before one that it should follow.
pub open spec fn increasing(names: Seq<Seq<char>>) -> bool {
    forall|i: int, j: int|
        0 <= i < j < names.len() ==> !feature_before(#[trigger] names[j], #[trigger] names[i])
}

/// Every name stands strictly before all that follow it, so none occurs twice.
pub open spec fn strictly_increasing(names: Seq<Seq<char>>) -> bool {
    forall|i: int, j: int|
        0 <= i < j < names.len() ==> feature_before(#[trigger] names[i], #[trigger] names[j])
}

/// `canon` lists exactly the names in `members`, each once, in increasing
/// order.
pub open spec fn is_canonical_form(canon: Seq<Seq<char>>, members: Set<Seq<char>>) -> bool {
    strictly_increasing(canon) && canon.to_set() == members
}

/// The canonical form of a set of names.
pub open spec fn canonical_form_of(members: Set<Seq<char>>) -> Seq<Seq<char>> {
    choose|canon: Seq<Seq<char>>| is_canonical_form(canon, members)
}

/// The canonical form of a list of names: it depends on which names occur
/// in the list, not on where or how often.
pub open spec fn canonical_form(features: Seq<Seq<char>>) -> Seq<Seq<char>> {
    canonical_form_of(features.to_set())
}

/// The names of the canonical form written one after another, with nothing
/// in between.
pub open spec fn canonical_text(features: Seq<Seq<char>>) -> Seq<char> {
    canonical_form(features).flatten()
}

/// Without its last name a strictly increasing list is still strictly
/// increasing, and holds all its names but that one.
pub proof fn lemma_drop_last_canonical(canon: Seq<Seq<char>>)
    requires
        strictly_increasing(canon),
        canon.len() > 0,
    ensures
        is_canonical_form(canon.drop_last(), canon.to_set().remove(canon.last())),
{
    let shorter = canon.drop_last();
    assert forall|x: Seq<char>| shorter.contains(x) <==> canon.contains(x) && x != canon.last() by {
        if shorter.contains(x) {
            let k = choose|k: int| 0 <= k < shorter.len() && shorter[k] == x;
            assert(canon[k] == x);
            assert(feature_before(canon[k], canon.last()));
            lemma_feature_before_irreflexive(x);
        }
        if canon.contains(x) && x != canon.last() {
            let k = choose|k: int| 0 <= k < canon.len() && canon[k] == x;
            assert(shorter[k] == x);
        }
    }
    assert(shorter.to_set() =~= canon.to_set().remove(canon.last()));
    assert forall|p: int, q: int| 0 <= p < q < shorter.len() implies feature_before(
        #[trigger] shorter[p],
        #[trigger] shorter[q],
    ) by {
        assert(feature_before(canon[p], canon[q]));
    }
}

/// A set of names has at most one canonical form.
pub proof fn lemma_canonical_form_unique(a: Seq<Seq<char>>, b: Seq<Seq<char>>)
    requires
        strictly_increasing(a),
        strictly_increasing(b),
        a.to_set() == b.to_set(),
    ensures
        a == b,
    decreases a.len(),
{
    if a.len() == 0 || b.len() == 0 {
        if a.len() > 0 {
            assert(a.contains(a[0]));
            assert(b.to_set().contains(a[0]));
        }
        if b.len() > 0 {
            assert(b.contains(b[0]));
            assert(a.to_set().contains(b[0]));
        }
        assert(a =~= b);
    } else {
        // Each list ends with the greatest name of the set.
        assert(a.contains(a.last()));
        assert(b.contains(b.last()));
        assert(b.to_set().contains(a.last()));
        assert(a.to_set().contains(b.last()));
        if a.last() != b.last() {
            let i = choose|i: int| 0 <= i < a.len() && a[i] == b.last();
            let j = choose|j: int| 0 <= j < b.len() && b[j] == a.last();
            assert(feature_before(a[i], a.last()));
            assert(feature_before(b[j], b.last()));
            lemma_feature_before_asymmetric(a.last(), b.last());
        }
        lemma_drop_last_canonical(a);
        lemma_drop_last_canonical(b);
        lemma_canonical_form_unique(a.drop_last(), b.drop_last());
        assert(a =~= a.drop_last().push(a.last()));
        assert(b =~= b.drop_last().push(b.last()));
    }
}

/// Whatever lists the names of `features` once each in increasing order is
/// their canonical form.
pub proof fn lemma_is_canonical_form(canon: Seq<Seq<char>>, features: Seq<Seq<char>>)
    requires
        is_canonical_form(canon, features.to_set()),
    ensures
        canon == canonical_form(features),
{
    lemma_canonical_form_unique(canon, canonical_form(features));
}

/// Where `x` belongs in a strictly increasing list: behind every name that
/// comes before it.
pub open spec fn insertion_point(canon: Seq<Seq<char>>, x: Seq<char>) -> int
    decreases canon.len(),
{
    if canon.len() == 0 {
        0
    } else if feature_before(canon.last(), x) {
        canon.len() as int
    } else {
        insertion_point(canon.drop_last(), x)
    }
}

/// The insertion point parts a strictly increasing list into the names
/// before `x` and the rest.
pub proof fn lemma_insertion_point(canon: Seq<Seq<char>>, x: Seq<char>)
    requires
        strictly_increasing(canon),
    ensures
        0 <= insertion_point(canon, x) <= canon.len(),
        forall|p: int| 0 <= p < insertion_point(canon, x) ==> feature_before(#[trigger] canon[p], x),
        forall|q: int|
            insertion_point(canon, x) <= q < canon.len() ==> !feature_before(
                #[trigger] canon[q],
                x,
            ),
    decreases canon.len(),
{
    if canon.len() == 0 {
    } else if feature_before(canon.last(), x) {
        assert forall|p: int| 0 <= p < canon.len() implies feature_before(
            #[trigger] canon[p],
            x,
        ) by {
            if p < canon.len() - 1 {
                assert(feature_before(canon[p], canon.last()));
                lemma_feature_before_transitive(canon[p], canon.last(), x);
            }
        }
    } else {
        let shorter = canon.drop_last();
        lemma_drop_last_canonical(canon);
        lemma_insertion_point(shorter, x);
        assert forall|p: int| 0 <= p < insertion_point(canon, x) implies feature_before(
            #[trigger] canon[p],
            x,
        ) by {
            assert(canon[p] == shorter[p]);
        }
        assert forall|q: int| insertion_point(canon, x) <= q < canon.len() implies !feature_before(
            #[trigger] canon[q],
            x,
        ) by {
            if q < canon.len() - 1 {
                assert(canon[q] == shorter[q]);
            }
        }
    }
}

/// Putting a new name at its insertion point keeps a canonical form
/// canonical.
pub proof fn lemma_insert_keeps_canonical(canon: Seq<Seq<char>>, x: Seq<char>)
    requires
        strictly_increasing(canon),
        !canon.contains(x),
    ensures
        is_canonical_form(
            canon.insert(insertion_point(canon, x), x),
            canon.to_set().insert(x),
        ),
{
    let k = insertion_point(canon, x);
    let longer = canon.insert(k, x);
    lemma_insertion_point(canon, x);
    canon.insert_ensures(k, x);
    assert forall|p: int, q: int| 0 <= p < q < longer.len() implies feature_before(
        #[trigger] longer[p],
        #[trigger] longer[q],
    ) by {
        if p == k {
            // `x` against a name behind it, which is neither before `x` nor `x`.
            assert(canon.contains(canon[q - 1]));
            lemma_feature_before_total(x, canon[q - 1]);
        } else if q != k {
            let p0 = if p < k { p } else { p - 1 };
            let q0 = if q < k { q } else { q - 1 };
            assert(feature_before(canon[p0], canon[q0]));
        }
    }
    assert forall|y: Seq<char>| longer.contains(y) <==> (y == x || canon.contains(y)) by {
        if longer.contains(y) && y != x {
            let m = choose|m: int| 0 <= m < longer.len() && longer[m] == y;
            let m0 = if m < k { m } else { m - 1 };
            assert(canon[m0] == y);
        }
        if y == x {
            assert(longer[k] == y);
        } else if canon.contains(y) {
            let m = choose|m: int| 0 <= m < canon.len() && canon[m] == y;
            let m1 = if m < k { m } else { m + 1 };
            assert(longer[m1] == y);
        }
    }
    assert(longer.to_set() =~= canon.to_set().insert(x));
}

/// Every list of names has a canonical form: `canonical_form` lists the
/// names of `features` once each, in increasing order.
pub proof fn lemma_canonical_form_exists(features: Seq<Seq<char>>)
    ensures
        is_canonical_form(canonical_form(features), features.to_set()),
    decreases features.len(),
{
    if features.len() == 0 {
        let none = Seq::<Seq<char>>::empty();
        assert(none.to_set() =~= features.to_set());
        assert(is_canonical_form(none, features.to_set()));
    } else {
        let shorter = features.drop_last();
        let x = features.last();
        let canon = canonical_form(shorter);
        lemma_canonical_form_exists(shorter);
        assert(features =~= shorter.push(x));
        shorter.lemma_push_to_set_commute(x);
        if canon.contains(x) {
            assert(canon.to_set() =~= features.to_set());
            assert(is_canonical_form(canon, features.to_set()));
        } else {
            lemma_insert_keeps_canonical(canon, x);
            assert(is_canonical_form(
                canon.insert(insertion_point(canon, x), x),
                features.to_set(),
            ));
        }
    }
}

/// Merges two increasing runs of names into one. Where a name of `left`
/// equals one of `right`, the one of `left` comes first.
fn merge_runs<'a>(left: &Vec<&'a String>, right: &Vec<&'a String>) -> (merged: Vec<&'a String>)
    requires
        increasing(left.deep_view()),
        increasing(right.deep_view()),
    ensures
        increasing(merged.deep_view()),
        merged.deep_view().to_multiset() == left.deep_view().to_multiset().add(
            right.deep_view().to_multiset(),
        ),
{
    let ghost l = left.deep_view();
    let ghost r = right.deep_view();
    let mut merged: Vec<&'a String> = Vec::new();
    let mut i: usize = 0;
    let mut j: usize = 0;
    proof {
        broadcast use to_multiset_contains;

        assert(merged.deep_view().to_multiset() =~= l.take(0).to_multiset().add(
            r.take(0).to_multiset(),
        ));
    }
    while i < left.len() || j < right.len()
        invariant
            l == left.deep_view(),
            r == right.deep_view(),
            i <= left.len(),
            j <= right.len(),
            increasing(l),
            increasing(r),
            increasing(merged.deep_view()),
            merged.deep_view().to_multiset() == l.take(i as int).to_multiset().add(
                r.take(j as int).to_multiset(),
            ),
            forall|k: int, m: int|
                0 <= k < merged.len() && i <= m < l.len() ==> !feature_before(
                    #[trigger] l[m],
                    #[trigger] merged.deep_view()[k],
                ),
            forall|k: int, m: int|
                0 <= k < merged.len() && j <= m < r.len() ==> !feature_before(
                    #[trigger] r[m],
                    #[trigger] merged.deep_view()[k],
                ),
        decreases left.len() - i + right.len() - j,
    {
        let ghost before = merged.deep_view();
        let from_left = if i == left.len() {
            false
        } else if j == right.len() {
            true
        } else {
            !string_before(right[j].as_str(), left[i].as_str())
        };
        if from_left {
            let name: &'a String = left[i];
            merged.push(name);
            proof {
                let after = merged.deep_view();
                assert(after =~= before.push(l[i as int]));
                assert(l.take(i + 1) =~= l.take(i as int).push(l[i as int]));
                to_multiset_build(before, l[i as int]);
                to_multiset_build(l.take(i as int), l[i as int]);
                assert(after.to_multiset() =~= l.take(i + 1).to_multiset().add(
                    r.take(j as int).to_multiset(),
                ));
                assert forall|k: int, m: int|
                    0 <= k < after.len() && j <= m < r.len() implies !feature_before(
                    #[trigger] r[m],
                    #[trigger] after[k],
                ) by {
                    if k == before.len() {
                        if m > j {
                            lemma_not_after_transitive(l[i as int], r[j as int], r[m]);
                        }
                    }
                }
            }
            i += 1;
        } else {
            let name: &'a String = right[j];
            merged.push(name);
            proof {
                let after = merged.deep_view();
                assert(after =~= before.push(r[j as int]));
                assert(r.take(j + 1) =~= r.take(j as int).push(r[j as int]));
                to_multiset_build(before, r[j as int]);
                to_multiset_build(r.take(j as int), r[j as int]);
                assert(after.to_multiset() =~= l.take(i as int).to_multiset().add(
                    r.take(j + 1).to_multiset(),
                ));
                assert forall|k: int, m: int|
                    0 <= k < after.len() && i <= m < l.len() implies !feature_before(
                    #[trigger] l[m],
                    #[trigger] after[k],
                ) by {
                    if k == before.len() && feature_before(l[m], r[j as int]) {
                        lemma_feature_before_transitive(l[m], r[j as int], l[i as int]);
                        lemma_feature_before_irreflexive(l[i as int]);
                    }
                }
            }
            j += 1;
        }
    }
    proof {
        assert(l.take(i as int) =~= l);
        assert(r.take(j as int) =~= r);
    }
    merged
}

/// Sorts the names at the indices from `lo` up to `hi`, by merging its
/// sorted halves.
fn sort_range<'a>(names: &'a Vec<String>, lo: usize, hi: usize) -> (sorted: Vec<&'a String>)
    requires
        lo <= hi <= names.len(),
    ensures
        increasing(sorted.deep_view()),
        sorted.deep_view().to_multiset() == names.deep_view().subrange(
            lo as int,
            hi as int,
        ).to_multiset(),
    decreases hi - lo,
{
    let ghost all = names.deep_view();
    if hi - lo < 2 {
        let mut sorted: Vec<&'a String> = Vec::new();
        if lo < hi {
            sorted.push(&names[lo]);
        }
        assert(sorted.deep_view() =~= all.subrange(lo as int, hi as int));
        sorted
    } else {
        let mid: usize = lo + (hi - lo) / 2;
        let left = sort_range(names, lo, mid);
        let right = sort_range(names, mid, hi);
        let sorted = merge_runs(&left, &right);
        proof {
            lemma_multiset_commutative(
                all.subrange(lo as int, mid as int),
                all.subrange(mid as int, hi as int),
            );
            assert(all.subrange(lo as int, mid as int) + all.subrange(mid as int, hi as int)
                =~= all.subrange(lo as int, hi as int));
        }
        sorted
    }
}

/// Arranges the names in increasing order. Every name stays, as often as it
/// occurs.
pub fn sort_features<'a>(names: &'a Vec<String>) -> (sorted: Vec<&'a String>)
    ensures
        increasing(sorted.deep_view()),
        sorted.deep_view().to_multiset() == names.deep_view().to_multiset(),
{
    let sorted = sort_range(names, 0, names.len());
    assert(names.deep_view().subrange(0, names.len() as int) =~= names.deep_view());
    sorted
}

/// Drops every name that repeats the one before it. In an increasing list
/// equal names stand side by side, so each name stays exactly once.
pub fn dedup_sorted<'a>(sorted: &Vec<&'a String>) -> (unique: Vec<&'a String>)
    requires
        increasing(sorted.deep_view()),
    ensures
        strictly_increasing(unique.deep_view()),
        unique.deep_view().to_set() == sorted.deep_view().to_set(),
{
    let ghost s = sorted.deep_view();
    let mut unique: Vec<&'a String> = Vec::new();
    let mut i: usize = 0;
    while i < sorted.len()
        invariant
            s == sorted.deep_view(),
            i <= sorted.len(),
            increasing(s),
            strictly_increasing(unique.deep_view()),
            forall|x: Seq<char>| unique.deep_view().contains(x) <==> s.take(i as int).contains(x),
            i > 0 ==> unique.len() > 0 && unique.deep_view().last() == s[i - 1],
        decreases sorted.len() - i,
    {
        let ghost before = unique.deep_view();
        let name: &'a String = sorted[i];
        let repeats = if unique.len() == 0 {
            false
        } else {
            let last: &String = unique[unique.len() - 1];
            *last == *name
        };
        if !repeats {
            unique.push(name);
        }
        proof {
            let after = unique.deep_view();
            let seen = s.take(i as int);
            let next = s.take(i + 1);
            assert(next =~= seen.push(s[i as int]));
            if before.len() > 0 {
                // A name was kept already, so this is not the first one.
                assert(before.contains(before[0]));
                assert(seen.contains(before[0]));
            }
            if repeats {
                assert(seen[i - 1] == s[i as int]);
            } else {
                assert(after =~= before.push(s[i as int]));
                assert forall|p: int, q: int| 0 <= p < q < after.len() implies feature_before(
                    #[trigger] after[p],
                    #[trigger] after[q],
                ) by {
                    if q == before.len() {
                        // The name kept last is not after the new one, and differs from it.
                        let top = before.last();
                        assert(!feature_before(s[i as int], s[i - 1]));
                        lemma_feature_before_total(top, s[i as int]);
                        if p < before.len() - 1 {
                            assert(feature_before(before[p], top));
                            lemma_feature_before_transitive(before[p], top, s[i as int]);
                        }
                    } else {
                        assert(feature_before(before[p], before[q]));
                    }
                }
            }
            assert forall|x: Seq<char>| after.contains(x) <==> next.contains(x) by {
                if after.contains(x) {
                    let k = choose|k: int| 0 <= k < after.len() && after[k] == x;
                    if k < before.len() {
                        assert(before[k] == x);
                        assert(before.contains(x));
                        let m = choose|m: int| 0 <= m < seen.len() && seen[m] == x;
                        assert(next[m] == x);
                    } else {
                        assert(next[i as int] == x);
                    }
                }
                if next.contains(x) {
                    let m = choose|m: int| 0 <= m < next.len() && next[m] == x;
                    if m < i {
                        assert(seen[m] == x);
                        assert(before.contains(x));
                        let k = choose|k: int| 0 <= k < before.len() && before[k] == x;
                        assert(after[k] == x);
                    } else {
                        assert(after[after.len() - 1] == x);
                    }
                }
            }
        }
        i += 1;
    }
    proof {
        assert(s.take(i as int) =~= s);
        assert(unique.deep_view().to_set() =~= s.to_set());
    }
    unique
}

/// Writes the names one after another, with nothing in between.
pub fn concat_features(names: &Vec<&String>) -> (text: String)
    ensures
        text@ == names.deep_view().flatten(),
{
    let ghost parts = names.deep_view();
    let mut text = String::new();
    let mut i: usize = 0;
    while i < names.len()
        invariant
            parts == names.deep_view(),
            i <= names.len(),
            text@ == parts.take(i as int).flatten(),
        decreases names.len() - i,
    {
        text.append(names[i].as_str());
        proof {
            parts.take(i as int).lemma_flatten_push(parts[i as int]);
            assert(parts.take(i + 1) =~= parts.take(i as int).push(parts[i as int]));
        }
        i += 1;
    }
    assert(parts.take(i as int) =~= parts);
    text
}

/// Brings a list of names into canonical form: sorted, then without
/// repetitions. The result borrows the names from the list.
pub fn canonical_features<'a>(features: &'a Vec<String>) -> (canon: Vec<&'a String>)
    ensures
        canon.deep_view() == canonical_form(features.deep_view()),
{
    let sorted = sort_features(features);
    let canon = dedup_sorted(&sorted);
    proof {
        lemma_same_multiset_same_set(sorted.deep_view(), features.deep_view());
        lemma_is_canonical_form(canon.deep_view(), features.deep_view());
    }
    canon
}

/// Lists that hold the same names equally often hold the same names.
pub proof fn lemma_same_multiset_same_set(a: Seq<Seq<char>>, b: Seq<Seq<char>>)
    requires
        a.to_multiset() == b.to_multiset(),
    ensures
        a.to_set() == b.to_set(),
{
    assert forall|x: Seq<char>| a.contains(x) <==> b.contains(x) by {
        to_multiset_contains(a, x);
        to_multiset_contains(b, x);
    }
    assert(a.to_set() =~= b.to_set());
}

} // verus!
