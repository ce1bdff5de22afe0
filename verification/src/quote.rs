use crate::paths::{file_stem_of, path_stem};
use crate::select::{choose_one, Constraint, ConstraintView};
use crate::template::{lemma_span_within, span, span_end};
use crate::text::{substring, to_chars};
use vstd::prelude::*;

verus! {

/// Where the quote comes from.
#[derive(Debug, PartialEq, Eq)]
pub enum QuoteSource {
    /// A quote file, chosen by chance.
    RandomFile,
    /// The quote that the caller wrote out.
    Argument(String),
    /// What is piped into the program.
    Piped,
    /// There is no quote, and nothing is shown.
    Nothing,
}

/// What a `QuoteSource` stands for.
pub enum QuoteSourceView {
    RandomFile,
    Argument(Seq<char>),
    Piped,
    Nothing,
}

impl View for QuoteSource {
    type V = QuoteSourceView;

    open spec fn view(&self) -> QuoteSourceView {
        match self {
            QuoteSource::RandomFile => QuoteSourceView::RandomFile,
            QuoteSource::Argument(quote) => QuoteSourceView::Argument(quote@),
            QuoteSource::Piped => QuoteSourceView::Piped,
            QuoteSource::Nothing => QuoteSourceView::Nothing,
        }
    }
}

/// The names that the text from `pos` on holds, which `+` keeps apart.
pub open spec fn names_from(s: Seq<char>, pos: int) -> Seq<Seq<char>>
    decreases s.len() - pos,
    via names_from_ends
{
    let end = pos + span(s, pos, '+', '+');
    if 0 <= pos && end < s.len() {
        seq![s.subrange(pos, end)] + names_from(s, end + 1)
    } else {
        seq![s.subrange(pos, end)]
    }
}

#[via_fn]
proof fn names_from_ends(s: Seq<char>, pos: int) {
    if 0 <= pos <= s.len() {
        lemma_span_within(s, pos, '+', '+');
    }
}

/// The names of the characters that a quote file is for: its stem, taken
/// apart at each `+`. A stem without `+` is one name.
pub open spec fn quote_names(stem: Seq<char>) -> Seq<Seq<char>> {
    names_from(stem, 0)
}

/// Decides where the quote comes from: from a quote file where the caller
/// asks for one; else from the caller's own words where there are any; else
/// from what is piped in; else from nowhere.
pub fn calculate_quote(random: bool, input: Option<String>, piped: bool) -> (source: QuoteSource)
    ensures
        source@ == (if random {
            QuoteSourceView::RandomFile
        } else {
            match input {
                Some(quote) => QuoteSourceView::Argument(quote@),
                None => if piped {
                    QuoteSourceView::Piped
                } else {
                    QuoteSourceView::Nothing
                },
            }
        }),
{
    if random {
        QuoteSource::RandomFile
    } else {
        match input {
            Some(quote) => QuoteSource::Argument(quote),
            None => if piped {
                QuoteSource::Piped
            } else {
                QuoteSource::Nothing
            },
        }
    }
}

/// Takes the stem of a quote file apart into the names it holds.
pub fn split_names(stem: &str) -> (names: Vec<String>)
    ensures
        names.deep_view() == quote_names(stem@),
        names.len() > 0,
{
    let chars = to_chars(stem);
    let ghost s = chars@;
    let mut names: Vec<String> = Vec::new();
    let mut pos: usize = 0;
    assert(names.deep_view() =~= Seq::empty());
    assert(Seq::<Seq<char>>::empty() + names_from(s, 0) =~= names_from(s, 0));
    loop
        invariant
            s == chars@,
            s == stem@,
            pos <= chars.len(),
            names_from(s, 0) == names.deep_view() + names_from(s, pos as int),
        decreases chars.len() - pos,
    {
        let ghost before = names.deep_view();
        let end = span_end(&chars, pos, '+', '+');
        let name = substring(&chars, pos, end);
        let ghost added = name@;
        names.push(name);
        assert(names.deep_view() =~= before.push(added));
        if end >= chars.len() {
            assert(names_from(s, pos as int) == seq![added]);
            assert(before + seq![added] =~= before.push(added));
            return names;
        }
        proof {
            assert(names_from(s, pos as int) == seq![added] + names_from(s, end + 1));
            assert(before + (seq![added] + names_from(s, end + 1)) =~= before.push(added)
                + names_from(s, end + 1));
        }
        pos = end + 1;
    }
}

/// The names of the characters that the quote file at `path` is for. A
/// path that names no file is for the character without a name.
pub open spec fn names_for(path: Seq<char>) -> Seq<Seq<char>> {
    match path_stem(path) {
        Some(stem) => quote_names(stem),
        None => quote_names(Seq::empty()),
    }
}

/// The constraint that a quote brings with it: the name of one of the
/// characters that its file is for. Where the file is for several, chance
/// decides among them.
pub fn quote_constraint(path: &str) -> (constraint: Constraint)
    ensures
        exists|i: int|
            0 <= i < names_for(path@).len() && constraint@ == ConstraintView::Name(
                #[trigger] names_for(path@)[i],
            ),
        names_for(path@).len() == 1 ==> constraint@ == ConstraintView::Name(names_for(path@)[0]),
{
    let stem = match file_stem_of(path) {
        Some(stem) => stem,
        None => String::new(),
    };
    let names = split_names(stem.as_str());
    let ghost all = names.deep_view();
    assert(all == names_for(path@));
    match choose_one(names) {
        Some(name) => {
            proof {
                let i = choose|i: int| 0 <= i < names.len() && #[trigger] names[i] == name;
                assert(all[i] == name@);
                assert(names_for(path@)[i] == name@);
            }
            Constraint::Name(name)
        },
        None => Constraint::Name(stem),
    }
}

/// The constraints under which the character is chosen: those of the
/// caller, and the one that the quote brings only where the caller gave
/// none.
pub fn with_quote_constraint(constraints: Vec<Constraint>, quote: Option<Constraint>) -> (all: Vec<
    Constraint,
>)
    ensures
        all.deep_view() == (match quote {
            Some(constraint) if constraints.len() == 0 => seq![constraint@],
            _ => constraints.deep_view(),
        }),
{
    let mut all = constraints;
    match quote {
        Some(constraint) => {
            if all.len() == 0 {
                all.push(constraint);
                assert(all.deep_view() =~= seq![constraint@]);
            }
        },
        None => {},
    }
    all
}

} // verus!
