use crate::paths::{ends_with, has_suffix, template_name, to_pony_name};
use crate::pony::{pony_at, Pony, PonyView};
use crate::text::{same_text, to_chars};
use rand::Rng;
use vstd::prelude::*;

verus! {

/// What the caller asks of the character that is to speak.
#[derive(Debug, PartialEq, Eq)]
pub enum Constraint {
    /// The character whose template is at this path.
    Path(String),
    /// A character of this name.
    Name(String),
}

/// What a `Constraint` stands for.
pub enum ConstraintView {
    Path(Seq<char>),
    Name(Seq<char>),
}

impl View for Constraint {
    type V = ConstraintView;

    open spec fn view(&self) -> ConstraintView {
        match self {
            Constraint::Path(path) => ConstraintView::Path(path@),
            Constraint::Name(name) => ConstraintView::Name(name@),
        }
    }
}

impl DeepView for Constraint {
    type V = ConstraintView;

    open spec fn deep_view(&self) -> ConstraintView {
        self@
    }
}

/// The constraint that a word of the command line stands for: a path where
/// it ends in `.pony`, a name otherwise.
pub open spec fn constraint_of(word: Seq<char>) -> ConstraintView {
    if ends_with(word, ".pony"@) {
        ConstraintView::Path(word)
    } else {
        ConstraintView::Name(word)
    }
}

/// Whether a character meets a constraint when it is found in the
/// directory: a name is met by the character of that name, a path by none.
pub open spec fn meets(pony: PonyView, constraint: ConstraintView) -> bool {
    match constraint {
        ConstraintView::Name(name) => pony.name == name,
        ConstraintView::Path(_) => false,
    }
}

/// Whether a character meets one of the constraints.
pub open spec fn meets_any(pony: PonyView, constraints: Seq<ConstraintView>) -> bool {
    exists|i: int| 0 <= i < constraints.len() && meets(pony, #[trigger] constraints[i])
}

/// The character that a path leads to, as a list of one, or of none where
/// the path leads to no template.
pub open spec fn found_at(path: Seq<char>) -> Seq<PonyView> {
    match pony_at(path) {
        Some(pony) => seq![pony],
        None => Seq::empty(),
    }
}

/// The characters that the paths lead to, in the order of the paths. A path
/// that leads to no template is passed over.
pub open spec fn discovered(paths: Seq<Seq<char>>) -> Seq<PonyView>
    decreases paths.len(),
{
    if paths.len() == 0 {
        Seq::empty()
    } else {
        discovered(paths.drop_last()) + found_at(paths.last())
    }
}

/// The characters that the constraints name by their path, in the order of
/// the constraints. A path that leads to no template is passed over.
pub open spec fn by_path(constraints: Seq<ConstraintView>) -> Seq<PonyView>
    decreases constraints.len(),
{
    if constraints.len() == 0 {
        Seq::empty()
    } else {
        by_path(constraints.drop_last()) + match constraints.last() {
            ConstraintView::Path(path) => found_at(path),
            ConstraintView::Name(_) => Seq::empty(),
        }
    }
}

/// Those of `ponies` that meet one of the constraints, in their order.
pub open spec fn by_name(ponies: Seq<PonyView>, constraints: Seq<ConstraintView>) -> Seq<
    PonyView,
>
    decreases ponies.len(),
{
    if ponies.len() == 0 {
        Seq::empty()
    } else {
        by_name(ponies.drop_last(), constraints) + if meets_any(ponies.last(), constraints) {
            seq![ponies.last()]
        } else {
            Seq::empty()
        }
    }
}

/// The characters that the caller allows, as they are come upon. Without
/// constraints these are all that the directory holds. With constraints
/// these are the characters that the constraints name by path, whether the
/// directory holds them or not, and then those of the directory that go by
/// one of the names. A character that is come upon twice stands here twice.
pub open spec fn reached(paths: Seq<Seq<char>>, constraints: Seq<ConstraintView>) -> Seq<
    PonyView,
> {
    if constraints.len() == 0 {
        discovered(paths)
    } else {
        by_path(constraints) + by_name(discovered(paths), constraints)
    }
}

/// Whether one of `ponies` has its template at `path`.
pub open spec fn holds_path(ponies: Seq<PonyView>, path: Seq<char>) -> bool {
    exists|i: int| 0 <= i < ponies.len() && (#[trigger] ponies[i]).path == path
}

/// `ponies` with each template once: a character whose template is at the
/// path of an earlier one is left out.
pub open spec fn distinct(ponies: Seq<PonyView>) -> Seq<PonyView>
    decreases ponies.len(),
{
    if ponies.len() == 0 {
        Seq::empty()
    } else {
        let front = distinct(ponies.drop_last());
        if holds_path(front, ponies.last().path) {
            front
        } else {
            front.push(ponies.last())
        }
    }
}

/// The characters among which one is chosen: those that the caller allows,
/// each once. A template is one candidate however often it is come upon,
/// by its path, by its name, or by both.
pub open spec fn candidates(paths: Seq<Seq<char>>, constraints: Seq<ConstraintView>) -> Seq<
    PonyView,
> {
    distinct(reached(paths, constraints))
}

/// No two of the characters that are left have their template at one path;
/// each of them is one of the list, and the path of each of the list is
/// the path of one of them.
pub proof fn lemma_distinct(ponies: Seq<PonyView>)
    ensures
        forall|i: int, j: int|
            0 <= i < j < distinct(ponies).len() ==> (#[trigger] distinct(ponies)[i]).path != (
            #[trigger] distinct(ponies)[j]).path,
        forall|i: int|
            0 <= i < distinct(ponies).len() ==> ponies.contains(#[trigger] distinct(ponies)[i]),
        forall|k: int|
            0 <= k < ponies.len() ==> holds_path(distinct(ponies), (#[trigger] ponies[k]).path),
        distinct(ponies).len() <= ponies.len(),
        ponies.len() > 0 ==> distinct(ponies).len() > 0,
    decreases ponies.len(),
{
    if ponies.len() > 0 {
        let rest = ponies.drop_last();
        let front = distinct(rest);
        let whole = distinct(ponies);
        let last = ponies.last();
        lemma_distinct(rest);
        assert forall|i: int| 0 <= i < whole.len() implies ponies.contains(
            #[trigger] whole[i],
        ) by {
            if i < front.len() {
                assert(whole[i] == front[i]);
                assert(rest.contains(front[i]));
                let k = choose|k: int| 0 <= k < rest.len() && rest[k] == front[i];
                assert(ponies[k] == front[i]);
            } else {
                assert(ponies[ponies.len() - 1] == last);
            }
        }
        assert forall|k: int| 0 <= k < ponies.len() implies holds_path(
            whole,
            (#[trigger] ponies[k]).path,
        ) by {
            if k < rest.len() {
                assert(rest[k] == ponies[k]);
                let i = choose|i: int|
                    0 <= i < front.len() && (#[trigger] front[i]).path == rest[k].path;
                assert(whole[i] == front[i]);
            } else if holds_path(front, last.path) {
            } else {
                assert(whole[whole.len() - 1].path == last.path);
            }
        }
        assert forall|i: int, j: int| 0 <= i < j < whole.len() implies (#[trigger] whole[i]).path
            != (#[trigger] whole[j]).path by {
            if j < front.len() {
                assert(whole[i] == front[i] && whole[j] == front[j]);
            } else {
                assert(whole[i] == front[i]);
            }
        }
    }
}

/// No template is a candidate twice: a character that the constraints
/// reach by its path and by its name, or in both ways more than once, is
/// one candidate, and chance favours it over no other.
pub proof fn lemma_candidates_once(paths: Seq<Seq<char>>, constraints: Seq<ConstraintView>)
    ensures
        forall|i: int, j: int|
            0 <= i < j < candidates(paths, constraints).len() ==> (#[trigger] candidates(
                paths,
                constraints,
            )[i]).path != (#[trigger] candidates(paths, constraints)[j]).path,
        forall|k: int|
            0 <= k < reached(paths, constraints).len() ==> holds_path(
                candidates(paths, constraints),
                (#[trigger] reached(paths, constraints)[k]).path,
            ),
        forall|i: int|
            0 <= i < candidates(paths, constraints).len() ==> reached(paths, constraints).contains(
                #[trigger] candidates(paths, constraints)[i],
            ),
{
    lemma_distinct(reached(paths, constraints));
}

/// The characters that two lists of constraints name by path are those of
/// the first list and then those of the second.
pub proof fn lemma_by_path_concat(front: Seq<ConstraintView>, back: Seq<ConstraintView>)
    ensures
        by_path(front + back) == by_path(front) + by_path(back),
    decreases back.len(),
{
    if back.len() == 0 {
        assert(front + back =~= front);
        assert(by_path(front) + by_path(back) =~= by_path(front));
    } else {
        lemma_by_path_concat(front, back.drop_last());
        assert((front + back).drop_last() =~= front + back.drop_last());
        assert((front + back).last() == back.last());
        let last = match back.last() {
            ConstraintView::Path(path) => found_at(path),
            ConstraintView::Name(_) => Seq::empty(),
        };
        assert(by_path(front) + by_path(back.drop_last()) + last =~= by_path(front) + (by_path(
            back.drop_last(),
        ) + last));
    }
}

/// Those of two lists of characters that meet a constraint are those of the
/// first list and then those of the second.
pub proof fn lemma_by_name_concat(
    front: Seq<PonyView>,
    back: Seq<PonyView>,
    constraints: Seq<ConstraintView>,
)
    ensures
        by_name(front + back, constraints) == by_name(front, constraints) + by_name(
            back,
            constraints,
        ),
    decreases back.len(),
{
    if back.len() == 0 {
        assert(front + back =~= front);
        assert(by_name(front, constraints) + by_name(back, constraints) =~= by_name(
            front,
            constraints,
        ));
    } else {
        lemma_by_name_concat(front, back.drop_last(), constraints);
        assert((front + back).drop_last() =~= front + back.drop_last());
        assert((front + back).last() == back.last());
        let last = if meets_any(back.last(), constraints) {
            seq![back.last()]
        } else {
            Seq::empty()
        };
        assert(by_name(front, constraints) + by_name(back.drop_last(), constraints) + last
            =~= by_name(front, constraints) + (by_name(back.drop_last(), constraints) + last));
    }
}

/// Two lists of constraints that the same characters meet keep the same
/// characters of a list.
pub proof fn lemma_by_name_same(
    ponies: Seq<PonyView>,
    one: Seq<ConstraintView>,
    other: Seq<ConstraintView>,
)
    requires
        forall|pony: PonyView| meets_any(pony, one) == meets_any(pony, other),
    ensures
        by_name(ponies, one) == by_name(ponies, other),
    decreases ponies.len(),
{
    if ponies.len() > 0 {
        lemma_by_name_same(ponies.drop_last(), one, other);
    }
}

/// Where the constraints ask for one name and exactly one of the paths
/// leads to a character of that name, that character is the only candidate:
/// it is chosen whatever chance says.
pub proof fn lemma_only_one_of_that_name(paths: Seq<Seq<char>>, name: Seq<char>, at: int)
    requires
        0 <= at < paths.len(),
        template_name(paths[at]) == Some(name),
        forall|j: int| 0 <= j < paths.len() && j != at ==> template_name(paths[j]) != Some(name),
    ensures
        candidates(paths, seq![ConstraintView::Name(name)]) == seq![
            PonyView { path: paths[at], name, content: None },
        ],
{
    let wanted = seq![ConstraintView::Name(name)];
    assert(by_path(wanted) =~= Seq::empty()) by {
        reveal_with_fuel(by_path, 2);
    }
    lemma_named_among(paths, name, at, paths.len() as int);
    assert(paths.take(paths.len() as int) =~= paths);
    let only = seq![PonyView { path: paths[at], name, content: None }];
    assert(reached(paths, wanted) =~= only);
    assert(distinct(only) =~= only) by {
        reveal_with_fuel(distinct, 2);
    }
}

/// Among the first `upto` paths the character of that name is found once
/// the path that leads to it is among them, and no other.
proof fn lemma_named_among(paths: Seq<Seq<char>>, name: Seq<char>, at: int, upto: int)
    requires
        0 <= at < paths.len(),
        0 <= upto <= paths.len(),
        template_name(paths[at]) == Some(name),
        forall|j: int| 0 <= j < paths.len() && j != at ==> template_name(paths[j]) != Some(name),
    ensures
        by_name(discovered(paths.take(upto)), seq![ConstraintView::Name(name)]) == (if upto
            <= at {
            Seq::<PonyView>::empty()
        } else {
            seq![PonyView { path: paths[at], name, content: None }]
        }),
    decreases upto,
{
    let wanted = seq![ConstraintView::Name(name)];
    if upto == 0 {
        assert(paths.take(0) =~= Seq::empty());
    } else {
        let seen = discovered(paths.take(upto - 1));
        let path = paths[upto - 1];
        lemma_named_among(paths, name, at, upto - 1);
        assert(paths.take(upto).drop_last() =~= paths.take(upto - 1));
        assert(paths.take(upto).last() == path);
        lemma_by_name_concat(seen, found_at(path), wanted);
        match pony_at(path) {
            Some(pony) => {
                assert(meets_any(pony, wanted) == (pony.name == name)) by {
                    if pony.name == name {
                        assert(meets(pony, wanted[0]));
                    }
                }
                assert(by_name(found_at(path), wanted) =~= if pony.name == name {
                    seq![pony]
                } else {
                    Seq::empty()
                }) by {
                    reveal_with_fuel(by_name, 2);
                }
                assert(by_name(seen, wanted) + Seq::<PonyView>::empty() =~= by_name(seen, wanted));
                assert(Seq::<PonyView>::empty() + seq![pony] =~= seq![pony]);
            },
            None => {
                assert(by_name(seen, wanted) + Seq::<PonyView>::empty() =~= by_name(seen, wanted));
            },
        }
    }
}

/// A constraint by a path that leads to no template changes nothing among
/// the constraints that it is put with: the candidates are those of the
/// other constraints.
pub proof fn lemma_path_without_template_is_dropped(
    paths: Seq<Seq<char>>,
    constraints: Seq<ConstraintView>,
    at: int,
    path: Seq<char>,
)
    requires
        template_name(path) is None,
        constraints.len() > 0,
        0 <= at <= constraints.len(),
    ensures
        candidates(paths, constraints.insert(at, ConstraintView::Path(path))) == candidates(
            paths,
            constraints,
        ),
{
    let added = ConstraintView::Path(path);
    let more = constraints.insert(at, added);
    let front = constraints.take(at);
    let back = constraints.skip(at);
    assert(more =~= front + seq![added] + back);
    assert(constraints =~= front + back);
    lemma_by_path_concat(front + seq![added], back);
    lemma_by_path_concat(front, seq![added]);
    lemma_by_path_concat(front, back);
    assert(by_path(seq![added]) =~= Seq::empty()) by {
        reveal_with_fuel(by_path, 2);
    }
    assert(by_path(front) + Seq::<PonyView>::empty() =~= by_path(front));
    assert forall|pony: PonyView| meets_any(pony, more) == meets_any(pony, constraints) by {
        if meets_any(pony, more) {
            let i = choose|i: int| 0 <= i < more.len() && meets(pony, #[trigger] more[i]);
            if i < at {
                assert(meets(pony, constraints[i]));
            } else {
                assert(i > at);
                assert(meets(pony, constraints[i - 1]));
            }
        }
        if meets_any(pony, constraints) {
            let i = choose|i: int|
                0 <= i < constraints.len() && meets(pony, #[trigger] constraints[i]);
            if i < at {
                assert(meets(pony, more[i]));
            } else {
                assert(meets(pony, more[i + 1]));
            }
        }
    }
    lemma_by_name_same(discovered(paths), more, constraints);
    assert(reached(paths, more) == reached(paths, constraints));
}

/// Tells paths from names among the words of the command line.
pub fn calculate_constraints(files: &Vec<String>) -> (constraints: Vec<Constraint>)
    ensures
        constraints.len() == files.len(),
        forall|i: int|
            0 <= i < files.len() ==> (#[trigger] constraints[i])@ == constraint_of(files[i]@),
{
    let extension = to_chars(".pony");
    let mut constraints: Vec<Constraint> = Vec::new();
    let mut i: usize = 0;
    while i < files.len()
        invariant
            i <= files.len(),
            constraints.len() == i,
            extension@ == ".pony"@,
            forall|k: int| 0 <= k < i ==> (#[trigger] constraints[k])@ == constraint_of(files[k]@),
        decreases files.len() - i,
    {
        let word = files[i].clone();
        let chars = to_chars(word.as_str());
        if has_suffix(&chars, &extension) {
            constraints.push(Constraint::Path(word));
        } else {
            constraints.push(Constraint::Name(word));
        }
        i += 1;
    }
    constraints
}

/// Whether a character found in the directory meets a constraint.
pub fn matches(pony: &Pony, constraint: &Constraint) -> (met: bool)
    ensures
        met == meets(pony@, constraint@),
{
    match constraint {
        Constraint::Name(name) => same_text(pony.name(), name.as_str()),
        Constraint::Path(_) => false,
    }
}

/// Whether a character meets one of the constraints.
pub fn matches_any(pony: &Pony, constraints: &Vec<Constraint>) -> (met: bool)
    ensures
        met == meets_any(pony@, constraints.deep_view()),
{
    let ghost view = constraints.deep_view();
    let mut i: usize = 0;
    while i < constraints.len()
        invariant
            i <= constraints.len(),
            view == constraints.deep_view(),
            forall|k: int| 0 <= k < i ==> !meets(pony@, #[trigger] view[k]),
        decreases constraints.len() - i,
    {
        assert(view[i as int] == constraints[i as int]@);
        if matches(pony, &constraints[i]) {
            return true;
        }
        i += 1;
    }
    false
}

/// The characters that the paths lead to.
pub fn discover(paths: &Vec<String>) -> (ponies: Vec<Pony>)
    ensures
        ponies.deep_view() == discovered(paths.deep_view()),
{
    let ghost view = paths.deep_view();
    let mut ponies: Vec<Pony> = Vec::new();
    let mut i: usize = 0;
    assert(view.take(0) =~= Seq::empty());
    assert(ponies.deep_view() =~= Seq::empty());
    while i < paths.len()
        invariant
            i <= paths.len(),
            view == paths.deep_view(),
            ponies.deep_view() == discovered(view.take(i as int)),
        decreases paths.len() - i,
    {
        let ghost before = ponies.deep_view();
        proof {
            assert(view.take(i + 1).drop_last() =~= view.take(i as int));
            assert(view.take(i + 1).last() == paths[i as int]@);
        }
        match Pony::new(paths[i].clone()) {
            Some(pony) => {
                let ghost added = pony@;
                ponies.push(pony);
                assert(ponies.deep_view() =~= before + seq![added]);
            },
            None => {
                assert(before + Seq::<PonyView>::empty() =~= before);
            },
        }
        i += 1;
    }
    assert(view.take(i as int) =~= view);
    ponies
}

/// Whether one of `ponies` has its template at `path`.
pub fn holds(ponies: &Vec<Pony>, path: &str) -> (held: bool)
    ensures
        held == holds_path(ponies.deep_view(), path@),
{
    let ghost view = ponies.deep_view();
    let mut i: usize = 0;
    while i < ponies.len()
        invariant
            i <= ponies.len(),
            view == ponies.deep_view(),
            forall|k: int| 0 <= k < i ==> (#[trigger] view[k]).path != path@,
        decreases ponies.len() - i,
    {
        assert(view[i as int] == ponies[i as int]@);
        if same_text(ponies[i].path(), path) {
            return true;
        }
        i += 1;
    }
    false
}

/// Puts a character behind the others, unless one of them has its template
/// at the same path.
pub fn add_new(ponies: &mut Vec<Pony>, pony: Pony)
    ensures
        final(ponies).deep_view() == (if holds_path(old(ponies).deep_view(), pony@.path) {
            old(ponies).deep_view()
        } else {
            old(ponies).deep_view().push(pony@)
        }),
{
    let ghost before = ponies.deep_view();
    let ghost added = pony@;
    if !holds(ponies, pony.path()) {
        ponies.push(pony);
        assert(ponies.deep_view() =~= before.push(added));
    }
}

/// The characters among which one is chosen, for the paths that the
/// directory holds and the constraints of the caller. A character whose
/// template is already among them is not taken again.
pub fn constrain_ponies(paths: &Vec<String>, constraints: Vec<Constraint>) -> (ponies: Vec<Pony>)
    ensures
        ponies.deep_view() == candidates(paths.deep_view(), constraints.deep_view()),
{
    let ghost wanted = constraints.deep_view();
    let ghost view = paths.deep_view();
    let mut ponies: Vec<Pony> = Vec::new();
    let mut i: usize = 0;
    assert(wanted.take(0) =~= Seq::empty());
    assert(ponies.deep_view() =~= Seq::empty());
    while i < constraints.len()
        invariant
            i <= constraints.len(),
            wanted == constraints.deep_view(),
            ponies.deep_view() == distinct(by_path(wanted.take(i as int))),
        decreases constraints.len() - i,
    {
        let ghost come = by_path(wanted.take(i as int));
        proof {
            assert(wanted.take(i + 1).drop_last() =~= wanted.take(i as int));
            assert(wanted.take(i + 1).last() == constraints[i as int]@);
            assert(come + Seq::<PonyView>::empty() =~= come);
        }
        if let Constraint::Path(path) = &constraints[i] {
            if let Some(pony) = Pony::new(path.clone()) {
                proof {
                    assert((come + seq![pony@]).drop_last() =~= come);
                    assert((come + seq![pony@]).last() == pony@);
                }
                add_new(&mut ponies, pony);
            }
        }
        i += 1;
    }
    assert(wanted.take(i as int) =~= wanted);
    let ghost first = if constraints.len() == 0 {
        Seq::<PonyView>::empty()
    } else {
        by_path(wanted)
    };
    proof {
        if constraints.len() == 0 {
            assert(by_path(wanted) =~= Seq::empty());
        }
    }
    let mut j: usize = 0;
    assert(view.take(0) =~= Seq::empty());
    assert(first + Seq::<PonyView>::empty() =~= first);
    while j < paths.len()
        invariant
            j <= paths.len(),
            wanted == constraints.deep_view(),
            view == paths.deep_view(),
            first == by_path(wanted),
            ponies.deep_view() == distinct(
                first + (if wanted.len() == 0 {
                    discovered(view.take(j as int))
                } else {
                    by_name(discovered(view.take(j as int)), wanted)
                }),
            ),
        decreases paths.len() - j,
    {
        let ghost seen = discovered(view.take(j as int));
        let ghost kept = if wanted.len() == 0 {
            seen
        } else {
            by_name(seen, wanted)
        };
        let ghost come = first + kept;
        proof {
            assert(view.take(j + 1).drop_last() =~= view.take(j as int));
            assert(view.take(j + 1).last() == paths[j as int]@);
            assert(seen + Seq::<PonyView>::empty() =~= seen);
        }
        if let Some(pony) = Pony::new(paths[j].clone()) {
            let ghost added = pony@;
            proof {
                assert((seen + seq![added]).drop_last() =~= seen);
                assert((seen + seq![added]).last() == added);
                assert(by_name(seen, wanted) + Seq::<PonyView>::empty() =~= by_name(seen, wanted));
            }
            if constraints.len() == 0 || matches_any(&pony, &constraints) {
                proof {
                    assert(first + (kept + seq![added]) =~= come.push(added));
                    assert(come.push(added).drop_last() =~= come);
                    assert(come.push(added).last() == added);
                }
                add_new(&mut ponies, pony);
            }
        }
        j += 1;
    }
    proof {
        assert(view.take(j as int) =~= view);
        if wanted.len() == 0 {
            assert(first + discovered(view) =~= discovered(view));
        }
    }
    ponies
}

/// Finds the first path that leads to a character of the given name.
pub fn find_by_name(paths: &Vec<String>, name: &str) -> (found: Option<usize>)
    ensures
        match found {
            Some(at) => at < paths.len() && template_name(paths[at as int]@) == Some(name@)
                && forall|k: int| 0 <= k < at ==> template_name(#[trigger] paths[k]@) != Some(name@),
            None => forall|k: int|
                0 <= k < paths.len() ==> template_name(#[trigger] paths[k]@) != Some(name@),
        },
{
    let mut i: usize = 0;
    while i < paths.len()
        invariant
            i <= paths.len(),
            forall|k: int| 0 <= k < i ==> template_name(#[trigger] paths[k]@) != Some(name@),
        decreases paths.len() - i,
    {
        if let Some(found) = to_pony_name(paths[i].as_str()) {
            if same_text(found.as_str(), name) {
                return Some(i);
            }
        }
        i += 1;
    }
    None
}

/// Takes the item at `index` out of the list, where there is one.
pub fn pick<T>(items: Vec<T>, index: usize) -> (item: Option<T>)
    ensures
        index < items.len() ==> item == Some(items[index as int]),
        index >= items.len() ==> item is None,
{
    let mut items = items;
    if index < items.len() {
        Some(items.swap_remove(index))
    } else {
        None
    }
}

/// `rand::Rng::gen_range` on the generator of the thread, from zero up to
/// `bound`: a number below the bound. It depends on chance, so two calls may
/// differ.
#[verifier::external_body]
fn random_below(bound: usize) -> (index: usize)
    requires
        bound > 0,
    ensures
        index < bound,
{
    rand::thread_rng().gen_range(0, bound)
}

/// Chooses one item of the list: none where there is none, the only one
/// where there is one, and any of them, by chance, where there are more.
pub fn choose_one<T>(items: Vec<T>) -> (item: Option<T>)
    ensures
        item is None <==> items.len() == 0,
        items.len() == 1 ==> item == Some(items[0]),
        item matches Some(chosen) ==> exists|i: int|
            0 <= i < items.len() && #[trigger] items[i] == chosen,
{
    if items.len() == 0 {
        None
    } else if items.len() == 1 {
        pick(items, 0)
    } else {
        let index = random_below(items.len());
        pick(items, index)
    }
}

/// Chooses the character that speaks among the candidates: none where there
/// is none, the only one where there is one, and any of them, by chance,
/// where there are more.
pub fn select_pony(ponies: Vec<Pony>) -> (pony: Option<Pony>)
    ensures
        pony is None <==> ponies.len() == 0,
        ponies.len() == 1 ==> pony == Some(ponies[0]),
        pony matches Some(chosen) ==> exists|i: int|
            0 <= i < ponies.len() && #[trigger] ponies[i] == chosen,
{
    choose_one(ponies)
}

/// Why no character speaks.
#[derive(Clone, Copy, Debug, PartialEq, Eq, Structural)]
pub enum SelectError {
    /// The directory holds no character at all.
    NoPonies,
    /// There are characters, but none that the constraints allow.
    NoMatch,
}

/// Chooses the character that speaks, for the paths that the directory
/// holds and the constraints of the caller. A single candidate is the one
/// chosen; among several, chance decides. Without a candidate the error
/// tells whether the directory held a character at all.
pub fn choose_pony(paths: &Vec<String>, constraints: Vec<Constraint>) -> (chosen: Result<
    Pony,
    SelectError,
>)
    ensures
        ({
            let among = candidates(paths.deep_view(), constraints.deep_view());
            match chosen {
                Ok(pony) => exists|i: int| 0 <= i < among.len() && #[trigger] among[i] == pony@,
                Err(SelectError::NoPonies) => among.len() == 0 && discovered(
                    paths.deep_view(),
                ).len() == 0,
                Err(SelectError::NoMatch) => among.len() == 0 && discovered(
                    paths.deep_view(),
                ).len() > 0,
            }
        }),
        candidates(paths.deep_view(), constraints.deep_view()).len() == 1 ==> (chosen matches Ok(
            pony,
        ) && pony@ == candidates(paths.deep_view(), constraints.deep_view())[0]),
{
    let ponies = constrain_ponies(paths, constraints);
    let ghost among = ponies.deep_view();
    match select_pony(ponies) {
        Some(pony) => {
            proof {
                let i = choose|i: int| 0 <= i < ponies.len() && #[trigger] ponies[i] == pony;
                assert(among[i] == pony@);
            }
            Ok(pony)
        },
        None => {
            let found = discover(paths);
            if found.len() == 0 {
                Err(SelectError::NoPonies)
            } else {
                Err(SelectError::NoMatch)
            }
        },
    }
}

} // verus!
