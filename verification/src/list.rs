use crate::pony::{Pony, PonyView};
use crate::select::{discovered, found_at};
use crate::text::to_chars;
use vstd::prelude::*;

verus! {

/// Whether `a`, read from `i` on, comes before `b` in the dictionary, or is
/// `b`, where the two are the same up to `i`.
pub open spec fn in_order_from(a: Seq<char>, b: Seq<char>, i: int) -> bool
    decreases a.len() - i,
{
    if i < 0 || i >= a.len() {
        true
    } else if i >= b.len() {
        false
    } else if a[i] != b[i] {
        a[i] < b[i]
    } else {
        in_order_from(a, b, i + 1)
    }
}

/// Whether `a` comes before `b` in the dictionary, or is `b`: at the first
/// place where they differ `a` has the lesser character, or `a` ends there.
pub open spec fn in_order(a: Seq<char>, b: Seq<char>) -> bool {
    in_order_from(a, b, 0)
}

/// Whether the characters stand in the order of their names.
pub open spec fn ordered(ponies: Seq<PonyView>) -> bool {
    forall|i: int, j: int|
        0 <= i < j < ponies.len() ==> in_order(
            (#[trigger] ponies[i]).name,
            (#[trigger] ponies[j]).name,
        )
}

/// The place of a new name in a list, counted from `from` on: behind every
/// character whose name comes before it or is the same.
pub open spec fn place_from(ponies: Seq<PonyView>, name: Seq<char>, from: int) -> int
    decreases ponies.len() - from,
{
    if 0 <= from < ponies.len() && in_order(ponies[from].name, name) {
        place_from(ponies, name, from + 1)
    } else {
        from
    }
}

/// The list with one character more, at the place of its name.
pub open spec fn with_pony(ponies: Seq<PonyView>, pony: PonyView) -> Seq<PonyView> {
    ponies.insert(place_from(ponies, pony.name, 0), pony)
}

/// The characters in the order of their names. Characters of one name keep
/// the order in which they came.
pub open spec fn sorted_by_name(ponies: Seq<PonyView>) -> Seq<PonyView>
    decreases ponies.len(),
{
    if ponies.len() == 0 {
        Seq::empty()
    } else {
        with_pony(sorted_by_name(ponies.drop_last()), ponies.last())
    }
}

/// Of two names one comes before the other, or they are the same.
pub proof fn lemma_order_total(a: Seq<char>, b: Seq<char>)
    ensures
        in_order(a, b) || in_order(b, a),
{
    lemma_order_total_from(a, b, 0);
}

proof fn lemma_order_total_from(a: Seq<char>, b: Seq<char>, i: int)
    requires
        0 <= i,
    ensures
        in_order_from(a, b, i) || in_order_from(b, a, i),
    decreases a.len() - i,
{
    if i < a.len() && i < b.len() && a[i] == b[i] {
        lemma_order_total_from(a, b, i + 1);
    }
}

/// A name that comes before a second, which comes before a third, comes
/// before the third.
pub proof fn lemma_order_transitive(a: Seq<char>, b: Seq<char>, c: Seq<char>)
    requires
        in_order(a, b),
        in_order(b, c),
    ensures
        in_order(a, c),
{
    lemma_order_transitive_from(a, b, c, 0);
}

proof fn lemma_order_transitive_from(a: Seq<char>, b: Seq<char>, c: Seq<char>, i: int)
    requires
        0 <= i,
        in_order_from(a, b, i),
        in_order_from(b, c, i),
    ensures
        in_order_from(a, c, i),
    decreases a.len() - i,
{
    if i < a.len() && i < b.len() && i < c.len() && a[i] == b[i] && b[i] == c[i] {
        lemma_order_transitive_from(a, b, c, i + 1);
    }
}

/// The place of a name is within the list; the characters before it come
/// before the name, and the character at it, where there is one, comes
/// after the name.
pub proof fn lemma_place(ponies: Seq<PonyView>, name: Seq<char>, from: int)
    requires
        0 <= from <= ponies.len(),
    ensures
        from <= place_from(ponies, name, from) <= ponies.len(),
        forall|k: int|
            from <= k < place_from(ponies, name, from) ==> in_order(
                (#[trigger] ponies[k]).name,
                name,
            ),
        place_from(ponies, name, from) < ponies.len() ==> !in_order(
            ponies[place_from(ponies, name, from)].name,
            name,
        ),
    decreases ponies.len() - from,
{
    if from < ponies.len() && in_order(ponies[from].name, name) {
        lemma_place(ponies, name, from + 1);
    }
}

/// A list in order is in order again with one character more.
pub proof fn lemma_with_pony_ordered(ponies: Seq<PonyView>, pony: PonyView)
    requires
        ordered(ponies),
    ensures
        ordered(with_pony(ponies, pony)),
{
    let at = place_from(ponies, pony.name, 0);
    let more = with_pony(ponies, pony);
    lemma_place(ponies, pony.name, 0);
    assert forall|i: int, j: int| 0 <= i < j < more.len() implies in_order(
        (#[trigger] more[i]).name,
        (#[trigger] more[j]).name,
    ) by {
        if j < at {
            assert(more[i] == ponies[i] && more[j] == ponies[j]);
        } else if j == at {
            assert(more[i] == ponies[i]);
        } else if i == at {
            assert(more[j] == ponies[j - 1]);
            lemma_order_total(ponies[at].name, pony.name);
            if j - 1 > at {
                assert(in_order(ponies[at].name, ponies[j - 1].name));
                lemma_order_transitive(pony.name, ponies[at].name, ponies[j - 1].name);
            }
        } else if i < at {
            assert(more[i] == ponies[i] && more[j] == ponies[j - 1]);
        } else {
            assert(more[i] == ponies[i - 1] && more[j] == ponies[j - 1]);
        }
    }
}

/// The characters in the order of their names stand in that order.
pub proof fn lemma_sorted_is_ordered(ponies: Seq<PonyView>)
    ensures
        ordered(sorted_by_name(ponies)),
    decreases ponies.len(),
{
    if ponies.len() > 0 {
        lemma_sorted_is_ordered(ponies.drop_last());
        lemma_with_pony_ordered(sorted_by_name(ponies.drop_last()), ponies.last());
    }
}

/// Putting the characters in order neither loses nor adds one.
pub proof fn lemma_sorted_is_permutation(ponies: Seq<PonyView>)
    ensures
        sorted_by_name(ponies).to_multiset() == ponies.to_multiset(),
    decreases ponies.len(),
{
    broadcast use vstd::seq_lib::group_to_multiset_ensures;

    if ponies.len() == 0 {
        assert(sorted_by_name(ponies) =~= ponies);
    } else {
        let front = ponies.drop_last();
        let rest = sorted_by_name(front);
        let at = place_from(rest, ponies.last().name, 0);
        let more = rest.insert(at, ponies.last());
        lemma_sorted_is_permutation(front);
        lemma_place(rest, ponies.last().name, 0);
        assert(more.remove(at) =~= rest);
        assert(more[at] == ponies.last());
        assert(more.to_multiset() =~= rest.to_multiset().insert(ponies.last()));
        assert(front.push(ponies.last()) =~= ponies);
        assert(ponies.to_multiset() =~= front.to_multiset().insert(ponies.last()));
    }
}

/// Whether `a` comes before `b` in the dictionary, or is `b`.
pub fn name_precedes(a: &str, b: &str) -> (before: bool)
    ensures
        before == in_order(a@, b@),
{
    let left = to_chars(a);
    let right = to_chars(b);
    let mut i: usize = 0;
    while i < left.len()
        invariant
            i <= left.len(),
            left@ == a@,
            right@ == b@,
            in_order(a@, b@) == in_order_from(a@, b@, i as int),
        decreases left.len() - i,
    {
        if i >= right.len() {
            return false;
        }
        if left[i] != right[i] {
            return left[i] < right[i];
        }
        i += 1;
    }
    true
}

/// The characters that the paths lead to, in the order of their names.
pub fn pony_list(paths: &Vec<String>) -> (ponies: Vec<Pony>)
    ensures
        ponies.deep_view() == sorted_by_name(discovered(paths.deep_view())),
        ordered(ponies.deep_view()),
        ponies.deep_view().to_multiset() == discovered(paths.deep_view()).to_multiset(),
{
    let ghost view = paths.deep_view();
    let mut ponies: Vec<Pony> = Vec::new();
    let mut i: usize = 0;
    assert(view.take(0) =~= Seq::empty());
    assert(ponies.deep_view() =~= Seq::empty());
    while i < paths.len()
        invariant
            i <= paths.len(),
            view == paths.deep_view(),
            ponies.deep_view() == sorted_by_name(discovered(view.take(i as int))),
        decreases paths.len() - i,
    {
        let ghost seen = discovered(view.take(i as int));
        let ghost before = ponies.deep_view();
        proof {
            assert(view.take(i + 1).drop_last() =~= view.take(i as int));
            assert(view.take(i + 1).last() == paths[i as int]@);
            assert(seen + Seq::<PonyView>::empty() =~= seen);
        }
        if let Some(pony) = Pony::new(paths[i].clone()) {
            let ghost added = pony@;
            proof {
                assert((seen + found_at(paths[i as int]@)).drop_last() =~= seen);
                assert((seen + found_at(paths[i as int]@)).last() == added);
            }
            let mut at: usize = 0;
            while at < ponies.len() && name_precedes(ponies[at].name(), pony.name())
                invariant
                    at <= ponies.len(),
                    before == ponies.deep_view(),
                    added == pony@,
                    place_from(before, added.name, 0) == place_from(before, added.name, at as int),
                decreases ponies.len() - at,
            {
                assert(before[at as int] == ponies[at as int]@);
                at += 1;
            }
            proof {
                if at < ponies.len() {
                    assert(before[at as int] == ponies[at as int]@);
                }
            }
            ponies.insert(at, pony);
            assert(ponies.deep_view() =~= before.insert(at as int, added));
        }
        i += 1;
    }
    proof {
        assert(view.take(i as int) =~= view);
        lemma_sorted_is_ordered(discovered(view));
        lemma_sorted_is_permutation(discovered(view));
    }
    ponies
}

} // verus!
