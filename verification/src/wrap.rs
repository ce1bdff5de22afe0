use crate::text::{substring, to_chars};
use unicode_width::UnicodeWidthStr;
use vstd::prelude::*;

verus! {

/// The number of display columns at which a quote is wrapped.
pub const WRAP_WIDTH: usize = 65;

/// The lines into which `textwrap::wrap` breaks `text` at `width` columns,
/// with or without leave to break a word that is wider than that.
pub uninterp spec fn wrapped_lines(text: Seq<char>, width: usize, break_words: bool) -> Seq<
    Seq<char>,
>;

/// The number of terminal columns that `text` occupies, as
/// `unicode_width::UnicodeWidthStr::width` measures it.
pub uninterp spec fn display_columns(text: Seq<char>) -> nat;

/// Whether `c` has the Unicode property `White_Space`: the controls from
/// tab to carriage return, the space, the next-line control, and the spaces
/// and separators of the blocks beyond.
pub open spec fn is_white_space(c: char) -> bool {
    ||| '\u{9}' <= c <= '\u{d}'
    ||| c == '\u{20}'
    ||| c == '\u{85}'
    ||| c == '\u{a0}'
    ||| c == '\u{1680}'
    ||| '\u{2000}' <= c <= '\u{200a}'
    ||| c == '\u{2028}'
    ||| c == '\u{2029}'
    ||| c == '\u{202f}'
    ||| c == '\u{205f}'
    ||| c == '\u{3000}'
}

/// `textwrap::wrap` with the options that `textwrap::Options::new` makes of
/// the width and `break_words` of the flag, each line handed out as an owned
/// string. The lines depend on the text, the width and the flag alone. Each
/// is cut out of the text, with at most a hyphen put behind it, so that it
/// holds no character but those of the text and the hyphen; nothing more
/// is claimed of them.
#[verifier::external_body]
fn wrap_text(text: &str, width: usize, break_words: bool) -> (lines: Vec<String>)
    ensures
        lines.deep_view() == wrapped_lines(text@, width, break_words),
        forall|i: int, k: int|
            #![trigger lines[i]@[k]]
            0 <= i < lines.len() && 0 <= k < lines[i]@.len() ==> lines[i]@[k] == '-'
                || text@.contains(lines[i]@[k]),
{
    let options = textwrap::Options::new(width).break_words(break_words);
    textwrap::wrap(text, options).into_iter().map(|line| line.into_owned()).collect()
}

/// `unicode_width::UnicodeWidthStr::width` of `text`. The width depends on the
/// text alone, and the empty text is zero columns wide.
#[verifier::external_body]
pub(crate) fn display_width(text: &str) -> (columns: usize)
    ensures
        columns == display_columns(text@),
        text@.len() == 0 ==> columns == 0,
{
    UnicodeWidthStr::width(text)
}

/// Whether `c` is white space.
pub fn white_space(c: char) -> (white: bool)
    ensures
        white == is_white_space(c),
{
    ('\u{9}' <= c && c <= '\u{d}') || c == '\u{20}' || c == '\u{85}' || c == '\u{a0}' || c
        == '\u{1680}' || ('\u{2000}' <= c && c <= '\u{200a}') || c == '\u{2028}' || c
        == '\u{2029}' || c == '\u{202f}' || c == '\u{205f}' || c == '\u{3000}'
}

/// `text` without the white space at its end.
pub open spec fn trimmed(text: Seq<char>) -> Seq<char>
    decreases text.len(),
{
    if text.len() > 0 && is_white_space(text.last()) {
        trimmed(text.drop_last())
    } else {
        text
    }
}

/// `lines` with each line trimmed at its end.
pub open spec fn trimmed_lines(lines: Seq<Seq<char>>) -> Seq<Seq<char>> {
    Seq::new(lines.len(), |i: int| trimmed(lines[i]))
}

/// The lines that are drawn for the lines that wrapping gave: each line
/// trimmed at its end, and the empty line alone where wrapping gave none.
pub open spec fn finished_lines(raw: Seq<Seq<char>>) -> Seq<Seq<char>> {
    if raw.len() == 0 {
        seq![Seq::<char>::empty()]
    } else {
        trimmed_lines(raw)
    }
}

/// A quote without its line breaks: a space stands in place of each, so
/// that a line break is a place to wrap like any other and forces no line.
pub open spec fn unbroken(quote: Seq<char>) -> Seq<char> {
    Seq::new(
        quote.len(),
        |i: int|
            if quote[i] == '\n' {
                ' '
            } else {
                quote[i]
            },
    )
}

/// The lines of a quote: what `textwrap::wrap` makes of the quote without
/// its line breaks at `WRAP_WIDTH` columns, no word broken, finished for
/// drawing. A word wider than that is left whole, on a line of its own. The
/// empty quote has the empty line as its only one.
pub open spec fn quote_lines(quote: Seq<char>) -> Seq<Seq<char>> {
    if quote.len() == 0 {
        seq![Seq::<char>::empty()]
    } else {
        finished_lines(wrapped_lines(unbroken(quote), WRAP_WIDTH, false))
    }
}

/// What is left of a trimmed text is its beginning, does not end in white
/// space, and what was cut off is all white space.
pub proof fn lemma_trimmed(text: Seq<char>)
    ensures
        trimmed(text).len() <= text.len(),
        trimmed(text) == text.take(trimmed(text).len() as int),
        trimmed(text).len() > 0 ==> !is_white_space(trimmed(text).last()),
        forall|k: int| trimmed(text).len() <= k < text.len() ==> is_white_space(text[k]),
    decreases text.len(),
{
    if text.len() > 0 && is_white_space(text.last()) {
        let front = text.drop_last();
        lemma_trimmed(front);
        assert(front.take(trimmed(front).len() as int) =~= text.take(trimmed(front).len() as int));
        assert forall|k: int| trimmed(text).len() <= k < text.len() implies is_white_space(
            text[k],
        ) by {
            if k < front.len() {
                assert(front[k] == text[k]);
            }
        }
    } else {
        assert(text.take(text.len() as int) =~= text);
    }
}

/// Removes the white space at the end of `text`.
pub fn trim_end(text: &str) -> (out: String)
    ensures
        out@ == trimmed(text@),
{
    let chars = to_chars(text);
    let mut end: usize = chars.len();
    assert(chars@.take(end as int) =~= chars@);
    while end > 0 && white_space(chars[end - 1])
        invariant
            end <= chars.len(),
            trimmed(chars@) == trimmed(chars@.take(end as int)),
        decreases end,
    {
        proof {
            let kept = chars@.take(end as int);
            assert(kept.last() == chars@[end - 1]);
            assert(kept.drop_last() =~= chars@.take(end - 1));
        }
        end -= 1;
    }
    proof {
        let kept = chars@.take(end as int);
        assert(end > 0 ==> kept.last() == chars@[end - 1]);
        assert(kept =~= chars@.subrange(0, end as int));
    }
    substring(&chars, 0, end)
}

/// Finishes the lines that wrapping gave: each is trimmed at its end, and
/// where there is none the empty line stands alone.
pub fn finish_lines(raw: &Vec<String>) -> (lines: Vec<String>)
    ensures
        lines.deep_view() == finished_lines(raw.deep_view()),
        lines.len() > 0,
{
    let mut lines: Vec<String> = Vec::new();
    if raw.len() == 0 {
        lines.push(String::new());
        assert(lines.deep_view() =~= finished_lines(raw.deep_view()));
        return lines;
    }
    let mut i: usize = 0;
    while i < raw.len()
        invariant
            i <= raw.len(),
            lines.len() == i,
            forall|k: int| 0 <= k < i ==> lines[k]@ == trimmed(#[trigger] raw[k]@),
        decreases raw.len() - i,
    {
        let line = trim_end(raw[i].as_str());
        lines.push(line);
        i += 1;
    }
    assert(lines.deep_view() =~= finished_lines(raw.deep_view())) by {
        assert forall|k: int| 0 <= k < lines.len() implies lines.deep_view()[k] == finished_lines(
            raw.deep_view(),
        )[k] by {
            assert(raw.deep_view()[k] == raw[k]@);
        }
    }
    lines
}

/// Puts a space in place of each line break of the quote.
pub fn join_lines(quote: &str) -> (out: String)
    ensures
        out@ == unbroken(quote@),
{
    let chars = to_chars(quote);
    let mut out = String::new();
    let mut i: usize = 0;
    while i < chars.len()
        invariant
            i <= chars.len(),
            chars@ == quote@,
            out@ == unbroken(quote@).take(i as int),
        decreases chars.len() - i,
    {
        if chars[i] == '\n' {
            out.push(' ');
        } else {
            out.push(chars[i]);
        }
        i += 1;
        assert(unbroken(quote@).take(i as int) =~= unbroken(quote@).take(i - 1).push(
            unbroken(quote@)[i - 1],
        ));
    }
    assert(unbroken(quote@).take(i as int) =~= unbroken(quote@));
    out
}

/// Wraps a quote into lines at `WRAP_WIDTH` columns and finishes them for
/// drawing. A line break in the quote is white space like any other, and a
/// word is never broken: one that is wider than the lines stands on a line
/// of its own. There is always at least one line: the empty quote gives
/// the empty line. The lines hold nothing but characters of the quote,
/// spaces and hyphens, and no line break.
pub fn wrap(quote: &str) -> (lines: Vec<String>)
    ensures
        lines.deep_view() == quote_lines(quote@),
        lines.len() > 0,
        forall|i: int, k: int|
            #![trigger lines[i]@[k]]
            0 <= i < lines.len() && 0 <= k < lines[i]@.len() ==> (lines[i]@[k] == '-'
                || lines[i]@[k] == ' ' || quote@.contains(lines[i]@[k])) && lines[i]@[k] != '\n',
{
    if quote.is_empty() {
        let mut lines: Vec<String> = Vec::new();
        lines.push(String::new());
        assert(lines.deep_view() =~= quote_lines(quote@));
        return lines;
    }
    let joined = join_lines(quote);
    let raw = wrap_text(joined.as_str(), WRAP_WIDTH, false);
    let lines = finish_lines(&raw);
    proof {
        assert forall|i: int, k: int|
            #![trigger lines[i]@[k]]
            0 <= i < lines.len() && 0 <= k < lines[i]@.len() implies (lines[i]@[k] == '-'
            || lines[i]@[k] == ' ' || quote@.contains(lines[i]@[k])) && lines[i]@[k] != '\n' by {
            assert(lines.deep_view().len() == lines.len());
            assert(lines.deep_view()[i] == lines[i]@);
            if raw.len() > 0 {
                assert(raw.deep_view().len() == raw.len());
                assert(lines.deep_view() == trimmed_lines(raw.deep_view()));
                assert(raw.deep_view()[i] == raw[i]@);
                assert(lines[i]@ == trimmed(raw[i]@));
                lemma_trimmed(raw[i]@);
                let c = raw[i]@[k];
                assert(raw[i]@.take(trimmed(raw[i]@).len() as int)[k] == c);
                assert(lines[i]@[k] == c);
                if c != '-' {
                    assert(joined@.contains(c));
                    let at = choose|at: int| 0 <= at < joined@.len() && joined@[at] == c;
                    if c != ' ' {
                        assert(quote@[at] == c);
                    }
                }
            }
        }
    }
    lines
}

} // verus!
