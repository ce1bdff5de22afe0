use crate::template::dollar_free;
use crate::wrap::{display_columns, display_width, quote_lines, wrap};
use vstd::prelude::*;

verus! {

/// A line of a quote together with the number of columns it takes on screen.
#[derive(Debug, PartialEq, Eq)]
pub struct Line {
    pub text: String,
    pub width: usize,
}

/// What a `Line` stands for.
pub struct LineView {
    pub text: Seq<char>,
    pub width: nat,
}

impl View for Line {
    type V = LineView;

    open spec fn view(&self) -> LineView {
        LineView { text: self.text@, width: self.width as nat }
    }
}

impl DeepView for Line {
    type V = LineView;

    open spec fn deep_view(&self) -> LineView {
        self@
    }
}

impl Line {
    /// A line whose text takes `width` columns.
    pub fn new(text: String, width: usize) -> (line: Line)
        ensures
            line@ == (LineView { text: text@, width: width as nat }),
    {
        Line { text, width }
    }
}

/// `n` copies of `c`.
pub open spec fn repeated(c: char, n: nat) -> Seq<char> {
    Seq::new(n, |i: int| c)
}

/// The width of a balloon: the greatest width among its lines, and zero when
/// it has none.
pub open spec fn balloon_width(lines: Seq<LineView>) -> nat
    decreases lines.len(),
{
    if lines.len() == 0 {
        0
    } else {
        let rest = balloon_width(lines.drop_last());
        if lines.last().width > rest {
            lines.last().width
        } else {
            rest
        }
    }
}

/// The rule above (`c` an underscore) or below (`c` a hyphen) a balloon of
/// the given width.
pub open spec fn rule(c: char, width: nat) -> Seq<char> {
    seq![' '] + repeated(c, width + 2) + seq![' ']
}

/// The glyph that opens row `i` of a balloon of `n` rows.
pub open spec fn left_border(i: int, n: int) -> char {
    if n == 1 {
        '<'
    } else if i == 0 {
        '/'
    } else if i == n - 1 {
        '\\'
    } else {
        '|'
    }
}

/// The glyph that closes row `i` of a balloon of `n` rows.
pub open spec fn right_border(i: int, n: int) -> char {
    if n == 1 {
        '>'
    } else if i == 0 {
        '\\'
    } else if i == n - 1 {
        '/'
    } else {
        '|'
    }
}

/// The number of spaces between the text of row `i` and its closing glyph.
pub open spec fn padding(lines: Seq<LineView>, i: int) -> nat {
    (balloon_width(lines) - lines[i].width + 1) as nat
}

/// Row `i` of the balloon around `lines`, without its line break.
pub open spec fn row(lines: Seq<LineView>, i: int) -> Seq<char> {
    seq![left_border(i, lines.len() as int), ' '] + lines[i].text + repeated(' ', padding(lines, i))
        + seq![right_border(i, lines.len() as int)]
}

/// The first `k` rows of the balloon around `lines`, each with its line break.
pub open spec fn rows(lines: Seq<LineView>, k: nat) -> Seq<char>
    decreases k,
{
    if k == 0 {
        Seq::empty()
    } else {
        rows(lines, (k - 1) as nat) + row(lines, k - 1) + seq!['\n']
    }
}

/// The balloon around `lines`: a rule of underscores, one row for each
/// line, a rule of hyphens.
pub open spec fn balloon(lines: Seq<LineView>) -> Seq<char> {
    let width = balloon_width(lines);
    rule('_', width) + seq!['\n'] + rows(lines, lines.len()) + rule('-', width)
}

/// The columns that row `i` takes on screen: its text by its measured width,
/// every other character by one column.
pub open spec fn row_columns(lines: Seq<LineView>, i: int) -> int {
    row(lines, i).len() - lines[i].text.len() + lines[i].width
}

/// Each line of `lines` with the width that it takes on screen.
pub open spec fn measured(lines: Seq<Seq<char>>) -> Seq<LineView> {
    Seq::new(lines.len(), |i: int| LineView { text: lines[i], width: display_columns(lines[i]) })
}

/// The width of a balloon is the width of one of its lines, and no line is
/// wider; a balloon without lines has width zero.
pub proof fn lemma_balloon_width_is_greatest(lines: Seq<LineView>)
    ensures
        forall|i: int| 0 <= i < lines.len() ==> (#[trigger] lines[i]).width <= balloon_width(lines),
        lines.len() > 0 ==> exists|i: int|
            0 <= i < lines.len() && (#[trigger] lines[i]).width == balloon_width(lines),
        lines.len() == 0 ==> balloon_width(lines) == 0,
    decreases lines.len(),
{
    if lines.len() > 0 {
        let front = lines.drop_last();
        lemma_balloon_width_is_greatest(front);
        assert forall|i: int| 0 <= i < lines.len() implies (#[trigger] lines[i]).width
            <= balloon_width(lines) by {
            if i < lines.len() - 1 {
                assert(front[i] == lines[i]);
            }
        }
        if lines.last().width > balloon_width(front) || front.len() == 0 {
            assert(lines[lines.len() - 1].width == balloon_width(lines));
        } else {
            let j = choose|j: int|
                0 <= j < front.len() && (#[trigger] front[j]).width == balloon_width(front);
            assert(lines[j] == front[j]);
        }
    }
}

/// Both rules of a balloon are four characters longer than the balloon is
/// wide.
pub proof fn lemma_rule_length(c: char, width: nat)
    ensures
        rule(c, width).len() == width + 4,
        rule(c, width).first() == ' ',
        rule(c, width).last() == ' ',
        forall|i: int| 1 <= i <= width + 2 ==> rule(c, width)[i] == c,
{
}

/// Every row opens and closes with the glyphs of its place, and takes four
/// columns more than the balloon is wide.
pub proof fn lemma_row_shape(lines: Seq<LineView>, i: int)
    requires
        0 <= i < lines.len(),
    ensures
        row(lines, i).first() == left_border(i, lines.len() as int),
        row(lines, i).last() == right_border(i, lines.len() as int),
        row_columns(lines, i) == balloon_width(lines) + 4,
{
    lemma_balloon_width_is_greatest(lines);
}

/// In a balloon of two rows or more the first row stands between `/` and
/// `\`, the last between `\` and `/`, and every row between them between
/// two bars.
pub proof fn lemma_corner_glyphs(lines: Seq<LineView>, i: int)
    requires
        lines.len() >= 2,
        0 <= i < lines.len(),
    ensures
        i == 0 ==> row(lines, i).first() == '/' && row(lines, i).last() == '\\',
        i == lines.len() - 1 ==> row(lines, i).first() == '\\' && row(lines, i).last() == '/',
        0 < i < lines.len() - 1 ==> row(lines, i).first() == '|' && row(lines, i).last() == '|',
{
    lemma_row_shape(lines, i);
}

/// A balloon begins with its rule of underscores and ends with its rule
/// of hyphens.
pub proof fn lemma_balloon_rules(lines: Seq<LineView>)
    ensures
        ({
            let whole = balloon(lines);
            let length = balloon_width(lines) as int + 4;
            &&& whole.len() >= 2 * length + 1
            &&& whole.take(length) == rule('_', balloon_width(lines))
            &&& whole[length] == '\n'
            &&& whole.skip(whole.len() - length) == rule('-', balloon_width(lines))
        }),
{
    let width = balloon_width(lines);
    let whole = balloon(lines);
    let length = width as int + 4;
    lemma_rule_length('_', width);
    lemma_rule_length('-', width);
    assert(whole.take(length) =~= rule('_', width));
    assert(whole.skip(whole.len() - length) =~= rule('-', width));
}

/// The balloon of a quote is as wide as the widest of the quote's lines is
/// on screen.
pub proof fn lemma_quote_balloon_width(quote: Seq<char>)
    ensures
        forall|i: int|
            0 <= i < quote_lines(quote).len() ==> display_columns(#[trigger] quote_lines(quote)[i])
                <= balloon_width(measured(quote_lines(quote))),
        quote_lines(quote).len() > 0 ==> exists|i: int|
            0 <= i < quote_lines(quote).len() && display_columns(#[trigger] quote_lines(quote)[i])
                == balloon_width(measured(quote_lines(quote))),
{
    let lines = quote_lines(quote);
    let drawn = measured(lines);
    lemma_balloon_width_is_greatest(drawn);
    assert forall|i: int| 0 <= i < lines.len() implies display_columns(#[trigger] lines[i])
        <= balloon_width(drawn) by {
        assert(drawn[i].width == display_columns(lines[i]));
    }
    if lines.len() > 0 {
        let i = choose|i: int| 0 <= i < drawn.len() && (#[trigger] drawn[i]).width == balloon_width(
            drawn,
        );
        assert(display_columns(lines[i]) == balloon_width(drawn));
    }
}

/// The first rows of a balloon hold no `$` where the lines hold none.
proof fn lemma_rows_dollar_free(lines: Seq<LineView>, k: nat)
    requires
        k <= lines.len(),
        forall|i: int| 0 <= i < lines.len() ==> dollar_free((#[trigger] lines[i]).text),
    ensures
        dollar_free(rows(lines, k)),
    decreases k,
{
    if k > 0 {
        lemma_rows_dollar_free(lines, (k - 1) as nat);
        assert(dollar_free(lines[k - 1].text));
        assert(dollar_free(row(lines, k - 1)));
    }
}

/// A balloon holds no `$` where its lines hold none: its rules and glyphs
/// bring none.
pub proof fn lemma_balloon_dollar_free(lines: Seq<LineView>)
    requires
        forall|i: int| 0 <= i < lines.len() ==> dollar_free((#[trigger] lines[i]).text),
    ensures
        dollar_free(balloon(lines)),
{
    lemma_rows_dollar_free(lines, lines.len());
}

/// The number of line breaks in a text.
pub open spec fn line_breaks(text: Seq<char>) -> nat
    decreases text.len(),
{
    if text.len() == 0 {
        0
    } else {
        line_breaks(text.drop_last()) + if text.last() == '\n' {
            1nat
        } else {
            0nat
        }
    }
}

/// Whether no line break stands in `text`.
pub open spec fn unbroken_text(text: Seq<char>) -> bool {
    forall|i: int| 0 <= i < text.len() ==> text[i] != '\n'
}

/// Two texts in a row hold the line breaks of both.
pub proof fn lemma_line_breaks_concat(front: Seq<char>, back: Seq<char>)
    ensures
        line_breaks(front + back) == line_breaks(front) + line_breaks(back),
    decreases back.len(),
{
    if back.len() == 0 {
        assert(front + back =~= front);
    } else {
        lemma_line_breaks_concat(front, back.drop_last());
        assert((front + back).drop_last() =~= front + back.drop_last());
        assert((front + back).last() == back.last());
    }
}

/// A text in which no line break stands holds none.
pub proof fn lemma_unbroken_text(text: Seq<char>)
    requires
        unbroken_text(text),
    ensures
        line_breaks(text) == 0,
    decreases text.len(),
{
    if text.len() > 0 {
        assert(unbroken_text(text.drop_last())) by {
            assert forall|i: int| 0 <= i < text.drop_last().len() implies text.drop_last()[i]
                != '\n' by {
                assert(text.drop_last()[i] == text[i]);
            }
        }
        lemma_unbroken_text(text.drop_last());
    }
}

/// The first `k` rows of a balloon hold `k` line breaks, one behind each
/// row, where no line holds one.
proof fn lemma_rows_line_breaks(lines: Seq<LineView>, k: nat)
    requires
        k <= lines.len(),
        forall|i: int| 0 <= i < lines.len() ==> unbroken_text((#[trigger] lines[i]).text),
    ensures
        line_breaks(rows(lines, k)) == k,
    decreases k,
{
    if k > 0 {
        let before = rows(lines, (k - 1) as nat);
        lemma_rows_line_breaks(lines, (k - 1) as nat);
        assert(unbroken_text(lines[k - 1].text));
        assert(unbroken_text(row(lines, k - 1)));
        lemma_unbroken_text(row(lines, k - 1));
        lemma_line_breaks_concat(before, row(lines, k - 1));
        lemma_line_breaks_concat(before + row(lines, k - 1), seq!['\n']);
        assert(line_breaks(seq!['\n']) == 1) by {
            reveal_with_fuel(line_breaks, 2);
        }
    }
}

/// A balloon around `n` lines, none of which holds a line break, is `n + 2`
/// lines of text: its line breaks are `n + 1`, one behind the upper rule
/// and one behind each row, and none stands at its end.
pub proof fn lemma_balloon_line_count(lines: Seq<LineView>)
    requires
        forall|i: int| 0 <= i < lines.len() ==> unbroken_text((#[trigger] lines[i]).text),
    ensures
        line_breaks(balloon(lines)) == lines.len() + 1,
        balloon(lines).last() == ' ',
{
    let width = balloon_width(lines);
    let upper = rule('_', width);
    let lower = rule('-', width);
    let body = rows(lines, lines.len());
    lemma_unbroken_text(upper);
    lemma_unbroken_text(lower);
    lemma_rows_line_breaks(lines, lines.len());
    assert(line_breaks(seq!['\n']) == 1) by {
        reveal_with_fuel(line_breaks, 2);
    }
    lemma_line_breaks_concat(upper, seq!['\n']);
    lemma_line_breaks_concat(upper + seq!['\n'], body);
    lemma_line_breaks_concat(upper + seq!['\n'] + body, lower);
    lemma_rule_length('-', width);
}

/// Around lines of at most `limit` columns every row takes at most
/// `limit + 4` columns, and so do the rules.
pub proof fn lemma_balloon_within(lines: Seq<LineView>, limit: nat)
    requires
        forall|i: int| 0 <= i < lines.len() ==> (#[trigger] lines[i]).width <= limit,
    ensures
        balloon_width(lines) <= limit,
        forall|i: int| 0 <= i < lines.len() ==> #[trigger] row_columns(lines, i) <= limit + 4,
        rule('_', balloon_width(lines)).len() <= limit + 4,
        rule('-', balloon_width(lines)).len() <= limit + 4,
{
    lemma_balloon_width_is_greatest(lines);
    if lines.len() > 0 {
        let i = choose|i: int|
            0 <= i < lines.len() && (#[trigger] lines[i]).width == balloon_width(lines);
        assert(lines[i].width <= limit);
    }
    assert forall|i: int| 0 <= i < lines.len() implies #[trigger] row_columns(lines, i) <= limit
        + 4 by {
        lemma_row_shape(lines, i);
    }
    lemma_rule_length('_', balloon_width(lines));
    lemma_rule_length('-', balloon_width(lines));
}

/// The balloon around the empty line: the smallest balloon that a quote can
/// have.
pub const EMPTY_BALLOON: &'static str = " __ \n<  >\n -- ";

/// The balloon around the empty line, of width zero, is `EMPTY_BALLOON`.
pub proof fn lemma_empty_balloon()
    ensures
        balloon(seq![LineView { text: Seq::empty(), width: 0 }]) == EMPTY_BALLOON@,
{
    let lines = seq![LineView { text: Seq::<char>::empty(), width: 0 }];
    reveal_strlit(" __ \n<  >\n -- ");
    reveal_with_fuel(balloon_width, 2);
    reveal_with_fuel(rows, 2);
    assert(lines.drop_last().len() == 0);
    assert(balloon_width(lines) == 0);
    assert(row(lines, 0) =~= seq!['<', ' ', ' ', '>']);
    assert(rows(lines, 1) =~= seq!['<', ' ', ' ', '>', '\n']);
    assert(balloon(lines) =~= EMPTY_BALLOON@);
}

/// Appends `n` copies of `c` to `out`.
fn push_repeated(out: &mut String, c: char, n: usize)
    ensures
        final(out)@ == old(out)@ + repeated(c, n as nat),
{
    let mut i: usize = 0;
    assert(out@ =~= old(out)@ + repeated(c, 0));
    while i < n
        invariant
            i <= n,
            out@ == old(out)@ + repeated(c, i as nat),
        decreases n - i,
    {
        out.push(c);
        i += 1;
        assert(out@ =~= old(out)@ + repeated(c, i as nat));
    }
}

/// Appends the rule of a balloon of the given width to `out`.
fn push_rule(out: &mut String, c: char, width: usize)
    ensures
        final(out)@ == old(out)@ + rule(c, width as nat),
{
    out.push(' ');
    push_repeated(out, c, width);
    out.push(c);
    out.push(c);
    out.push(' ');
    assert(out@ =~= old(out)@ + rule(c, width as nat));
}

/// The greatest width among `lines`, and zero when there are none.
pub fn widest(lines: &Vec<Line>) -> (width: usize)
    ensures
        width == balloon_width(lines.deep_view()),
{
    let mut width: usize = 0;
    let mut i: usize = 0;
    assert(lines.deep_view().take(0) =~= Seq::empty());
    while i < lines.len()
        invariant
            i <= lines.len(),
            width == balloon_width(lines.deep_view().take(i as int)),
        decreases lines.len() - i,
    {
        proof {
            let upto = lines.deep_view().take(i + 1);
            assert(upto.drop_last() =~= lines.deep_view().take(i as int));
            assert(upto.last() == lines[i as int]@);
        }
        if lines[i].width > width {
            width = lines[i].width;
        }
        i += 1;
    }
    assert(lines.deep_view().take(i as int) =~= lines.deep_view());
    width
}

/// Draws the balloon around `lines`: a rule of underscores, then one row for
/// each line, then a rule of hyphens. A row is an opening glyph, a space, the
/// line, as many spaces as the line is narrower than the widest one and one
/// more, and a closing glyph. A single line stands between `<` and `>`; of
/// several, the first stands between `/` and `\`, the last between `\` and
/// `/`, the others between two bars.
pub fn render_balloon(lines: &Vec<Line>) -> (out: String)
    ensures
        out@ == balloon(lines.deep_view()),
{
    let ghost view = lines.deep_view();
    let width = widest(lines);
    let n = lines.len();
    let mut out = String::new();
    push_rule(&mut out, '_', width);
    out.push('\n');
    let ghost head = out@;
    assert(head =~= rule('_', width as nat) + seq!['\n']);
    let mut i: usize = 0;
    assert(out@ =~= head + rows(view, 0));
    while i < n
        invariant
            i <= n,
            n == lines.len(),
            view == lines.deep_view(),
            width == balloon_width(view),
            out@ == head + rows(view, i as nat),
        decreases n - i,
    {
        let line = &lines[i];
        proof {
            lemma_balloon_width_is_greatest(view);
            assert(view[i as int] == line@);
        }
        let (open, close) = if n == 1 {
            ('<', '>')
        } else if i == 0 {
            ('/', '\\')
        } else if i == n - 1 {
            ('\\', '/')
        } else {
            ('|', '|')
        };
        out.push(open);
        out.push(' ');
        out.append(line.text.as_str());
        push_repeated(&mut out, ' ', width - line.width);
        out.push(' ');
        out.push(close);
        out.push('\n');
        proof {
            let gap = (width - line.width) as nat;
            assert(repeated(' ', gap).push(' ') =~= repeated(' ', padding(view, i as int)));
            assert(out@ =~= head + rows(view, i as nat) + row(view, i as int) + seq!['\n']);
            assert(head + rows(view, i as nat) + row(view, i as int) + seq!['\n'] =~= head + rows(
                view,
                (i + 1) as nat,
            ));
        }
        i += 1;
    }
    push_rule(&mut out, '-', width);
    out
}

/// Measures each line on screen.
pub fn measure(lines: &Vec<String>) -> (out: Vec<Line>)
    ensures
        out.deep_view() == measured(lines.deep_view()),
        forall|k: int| 0 <= k < lines.len() && lines[k]@.len() == 0 ==> (#[trigger] out[k]).width == 0,
{
    let mut out: Vec<Line> = Vec::new();
    let mut i: usize = 0;
    while i < lines.len()
        invariant
            i <= lines.len(),
            out.len() == i,
            forall|k: int|
                0 <= k < i ==> (#[trigger] out[k])@ == (LineView {
                    text: lines[k]@,
                    width: display_columns(lines[k]@),
                }),
            forall|k: int| 0 <= k < i && lines[k]@.len() == 0 ==> (#[trigger] out[k]).width == 0,
        decreases lines.len() - i,
    {
        let text = lines[i].clone();
        let width = display_width(text.as_str());
        out.push(Line { text, width });
        i += 1;
    }
    assert(out.deep_view() =~= measured(lines.deep_view()));
    out
}

/// The balloon around a quote: the quote is wrapped, its lines are measured
/// on screen, and the balloon is drawn around them. The empty quote gives the
/// smallest balloon there is. A quote without `$` gives a balloon without.
/// No line holds a line break, so that the balloon of `n` lines is `n + 2`
/// lines of text, the last not closed by a line break.
pub fn create_balloon(quote: &str) -> (out: String)
    ensures
        out@ == balloon(measured(quote_lines(quote@))),
        quote@.len() == 0 ==> out@ == EMPTY_BALLOON@,
        dollar_free(quote@) ==> dollar_free(out@),
        forall|i: int|
            0 <= i < quote_lines(quote@).len() ==> unbroken_text(#[trigger] quote_lines(quote@)[i]),
        line_breaks(out@) == quote_lines(quote@).len() + 1,
        out@.last() == ' ',
{
    let lines = wrap(quote);
    let measured = measure(&lines);
    proof {
        let drawn = measured.deep_view();
        assert forall|i: int| 0 <= i < lines.len() implies unbroken_text(
            #[trigger] quote_lines(quote@)[i],
        ) by {
            assert(lines.deep_view()[i] == lines[i]@);
            assert forall|k: int| 0 <= k < lines[i]@.len() implies lines[i]@[k] != '\n' by {}
        }
        assert forall|i: int| 0 <= i < drawn.len() implies unbroken_text(
            (#[trigger] drawn[i]).text,
        ) by {
            assert(drawn[i].text == quote_lines(quote@)[i]);
        }
        lemma_balloon_line_count(drawn);
        if dollar_free(quote@) {
            assert forall|i: int| 0 <= i < drawn.len() implies dollar_free(
                (#[trigger] drawn[i]).text,
            ) by {
                assert(lines.deep_view()[i] == lines[i]@);
                assert(drawn[i].text == lines[i]@);
                assert forall|k: int| 0 <= k < lines[i]@.len() implies lines[i]@[k] != '$' by {
                    let c = lines[i]@[k];
                    if c != '-' && c != ' ' {
                        assert(quote@.contains(c));
                    }
                }
            }
            lemma_balloon_dollar_free(drawn);
        }
        if quote@.len() == 0 {
            assert(lines.deep_view() == seq![Seq::<char>::empty()]);
            assert(lines.deep_view().len() == 1);
            assert(lines.deep_view()[0] == lines[0]@);
            assert(measured.deep_view().len() == measured.len());
            assert(measured.deep_view()[0] == measured[0]@);
            assert(measured.deep_view() =~= seq![LineView { text: Seq::empty(), width: 0 }]);
            lemma_empty_balloon();
        }
    }
    render_balloon(&measured)
}

} // verus!
