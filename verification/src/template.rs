use crate::text::{substring, to_chars};
use vstd::prelude::*;

verus! {

/// One piece of a template's body.
#[derive(Debug, PartialEq, Eq)]
pub enum Token {
    /// Art that is printed as it stands.
    Literal(String),
    /// A run of `\` and `/` that leads from the balloon to the character.
    Stem(String),
    /// The place where the balloon goes.
    BalloonSlot,
}

/// What a `Token` stands for.
pub enum TokenView {
    Literal(Seq<char>),
    Stem(Seq<char>),
    BalloonSlot,
}

impl View for Token {
    type V = TokenView;

    open spec fn view(&self) -> TokenView {
        match self {
            Token::Literal(text) => TokenView::Literal(text@),
            Token::Stem(marks) => TokenView::Stem(marks@),
            Token::BalloonSlot => TokenView::BalloonSlot,
        }
    }
}

impl DeepView for Token {
    type V = TokenView;

    open spec fn deep_view(&self) -> TokenView {
        self@
    }
}

/// One `key:value` line of a template's header.
#[derive(Debug, PartialEq, Eq)]
pub struct Entry {
    pub key: String,
    pub value: String,
}

/// What an `Entry` stands for.
pub struct EntryView {
    pub key: Seq<char>,
    pub value: Seq<char>,
}

impl View for Entry {
    type V = EntryView;

    open spec fn view(&self) -> EntryView {
        EntryView { key: self.key@, value: self.value@ }
    }
}

impl DeepView for Entry {
    type V = EntryView;

    open spec fn deep_view(&self) -> EntryView {
        self@
    }
}

/// A parsed template: the entries of its header in the order in which they
/// were written, repeated keys included, and the tokens of its body.
#[derive(Debug, PartialEq, Eq)]
pub struct Template {
    pub metadata: Vec<Entry>,
    pub tokens: Vec<Token>,
}

/// What a `Template` stands for.
pub struct TemplateView {
    pub metadata: Seq<EntryView>,
    pub tokens: Seq<TokenView>,
}

impl View for Template {
    type V = TemplateView;

    open spec fn view(&self) -> TemplateView {
        TemplateView { metadata: self.metadata.deep_view(), tokens: self.tokens.deep_view() }
    }
}

/// Why a text is no template.
#[derive(Clone, Copy, Debug, PartialEq, Eq, Structural)]
pub enum ParseError {
    /// The text opens a header that is not closed as a header must be.
    UnclosedMetadata,
    /// A `$` opens a segment and the text ends before the `$` that closes it.
    UnterminatedSegment,
    /// Two `$` follow each other with nothing between them.
    EmptySegment,
}

/// The line that opens and closes a header.
pub open spec fn header_mark() -> Seq<char> {
    seq!['$', '$', '$', '\n']
}

/// The number of characters from `pos` on, up to the end of the text, before
/// the first that is `a` or `b`.
pub open spec fn span(s: Seq<char>, pos: int, a: char, b: char) -> nat
    decreases s.len() - pos,
{
    if 0 <= pos < s.len() && s[pos] != a && s[pos] != b {
        1 + span(s, pos + 1, a, b)
    } else {
        0
    }
}

/// A span ends within the text.
pub proof fn lemma_span_within(s: Seq<char>, pos: int, a: char, b: char)
    requires
        0 <= pos <= s.len(),
    ensures
        pos + span(s, pos, a, b) <= s.len(),
    decreases s.len() - pos,
{
    if pos < s.len() && s[pos] != a && s[pos] != b {
        lemma_span_within(s, pos + 1, a, b);
    }
}

/// Whether `content` is the inside of a stem: one or more of `\` and `/`,
/// and nothing else.
pub open spec fn is_stem(content: Seq<char>) -> bool {
    &&& content.len() > 0
    &&& forall|i: int| 0 <= i < content.len() ==> content[i] == '\\' || content[i] == '/'
}

/// `tokens` with `token` put in front, where there are tokens.
pub open spec fn prepend(
    token: TokenView,
    tokens: Result<Seq<TokenView>, ParseError>,
) -> Result<Seq<TokenView>, ParseError> {
    match tokens {
        Ok(rest) => Ok(seq![token] + rest),
        Err(e) => Err(e),
    }
}

/// The tokens of the body that starts at `pos` and runs to the end of the
/// text. A run of characters other than `$`, as long as it can be, is a
/// literal. A `$` opens a segment that the next `$` closes: a stem where
/// only `\` and `/` stand between them, the balloon's slot otherwise. A
/// segment must hold something, and it must be closed.
pub open spec fn body_tokens(s: Seq<char>, pos: int) -> Result<Seq<TokenView>, ParseError>
    decreases s.len() - pos,
    via body_tokens_ends
{
    if pos < 0 || pos >= s.len() {
        Ok(Seq::empty())
    } else if s[pos] != '$' {
        let end = pos + 1 + span(s, pos + 1, '$', '$');
        prepend(TokenView::Literal(s.subrange(pos, end)), body_tokens(s, end))
    } else {
        let close = pos + 1 + span(s, pos + 1, '$', '$');
        if close >= s.len() {
            Err(ParseError::UnterminatedSegment)
        } else if close == pos + 1 {
            Err(ParseError::EmptySegment)
        } else {
            let content = s.subrange(pos + 1, close);
            let token = if is_stem(content) {
                TokenView::Stem(content)
            } else {
                TokenView::BalloonSlot
            };
            prepend(token, body_tokens(s, close + 1))
        }
    }
}

#[via_fn]
proof fn body_tokens_ends(s: Seq<char>, pos: int) {
    if 0 <= pos < s.len() {
        lemma_span_within(s, pos + 1, '$', '$');
    }
}

/// The header entry that starts at `pos`, with the position after it: a key
/// of one or more characters without `:` and line break, a `:`, a value of
/// one or more characters up to the line break that ends the entry.
pub open spec fn entry_at(s: Seq<char>, pos: int) -> Option<(EntryView, int)> {
    let key_end = pos + span(s, pos, ':', '\n');
    let value_start = key_end + 1;
    let value_end = value_start + span(s, value_start, '\n', '\n');
    if 0 <= pos < key_end < s.len() && s[key_end] == ':' && value_start < value_end < s.len() {
        Some(
            (
                EntryView {
                    key: s.subrange(pos, key_end),
                    value: s.subrange(value_start, value_end),
                },
                value_end + 1,
            ),
        )
    } else {
        None
    }
}

/// The header entries that follow each other from `pos` on, with the
/// position after the last of them.
pub open spec fn entries_from(s: Seq<char>, pos: int) -> (Seq<EntryView>, int)
    decreases s.len() - pos,
{
    match entry_at(s, pos) {
        Some((entry, next)) => {
            let (rest, end) = entries_from(s, next);
            (seq![entry] + rest, end)
        },
        None => (Seq::empty(), pos),
    }
}

/// The entries that follow each other from a place within the text end
/// within the text.
pub proof fn lemma_entries_within(s: Seq<char>, pos: int)
    requires
        0 <= pos <= s.len(),
    ensures
        pos <= entries_from(s, pos).1 <= s.len(),
    decreases s.len() - pos,
{
    match entry_at(s, pos) {
        Some((entry, next)) => {
            lemma_entries_within(s, next);
        },
        None => {},
    }
}

/// Whether the text opens a header.
pub open spec fn opens_header(s: Seq<char>) -> bool {
    s.len() >= 4 && s.subrange(0, 4) == header_mark()
}

/// The header of a text, with the position at which the body starts: the
/// opening mark, as many entries as follow each other, one or more
/// characters of free text without `$`, and the closing mark. A text that
/// does not begin with the mark has no header.
pub open spec fn header(s: Seq<char>) -> Option<(Seq<EntryView>, int)> {
    let (entries, pos) = entries_from(s, 4);
    let end = pos + span(s, pos, '$', '$');
    if opens_header(s) && pos < end && end + 4 <= s.len() && s.subrange(end, end + 4)
        == header_mark() {
        Some((entries, end + 4))
    } else {
        None
    }
}

/// The template that a text is: its header, where it opens one, and the
/// tokens of the body after it. The whole text is read: what cannot be read
/// to its end is no template. How many slots the body holds is not asked
/// here: a body with none, or with several, is a template too.
pub open spec fn parse(s: Seq<char>) -> Result<TemplateView, ParseError> {
    if opens_header(s) {
        match header(s) {
            Some((metadata, start)) => match body_tokens(s, start) {
                Ok(tokens) => Ok(TemplateView { metadata, tokens }),
                Err(e) => Err(e),
            },
            None => Err(ParseError::UnclosedMetadata),
        }
    } else {
        match body_tokens(s, 0) {
            Ok(tokens) => Ok(TemplateView { metadata: Seq::empty(), tokens }),
            Err(e) => Err(e),
        }
    }
}

/// The number of `$` from `pos` on.
pub open spec fn dollars(s: Seq<char>, pos: int) -> nat
    decreases s.len() - pos,
{
    if 0 <= pos < s.len() {
        (if s[pos] == '$' {
            1nat
        } else {
            0nat
        }) + dollars(s, pos + 1)
    } else {
        0
    }
}

/// Whether no `$` stands in `text`.
pub open spec fn dollar_free(text: Seq<char>) -> bool {
    forall|i: int| 0 <= i < text.len() ==> text[i] != '$'
}

/// The literal that `text` makes: none where it is empty.
pub open spec fn literal_of(text: Seq<char>) -> Seq<TokenView> {
    if text.len() == 0 {
        Seq::empty()
    } else {
        seq![TokenView::Literal(text)]
    }
}

/// Neither `a` nor `b` stands within a span, and one of them, or the end of
/// the text, stands behind it.
pub proof fn lemma_span_chars(s: Seq<char>, pos: int, a: char, b: char)
    requires
        0 <= pos <= s.len(),
    ensures
        forall|i: int| pos <= i < pos + span(s, pos, a, b) ==> s[i] != a && s[i] != b,
        pos + span(s, pos, a, b) <= s.len(),
        pos + span(s, pos, a, b) < s.len() ==> s[pos + span(s, pos, a, b)] == a || s[pos + span(
            s,
            pos,
            a,
            b,
        )] == b,
    decreases s.len() - pos,
{
    if pos < s.len() && s[pos] != a && s[pos] != b {
        lemma_span_chars(s, pos + 1, a, b);
    }
}

/// A run of `k` characters other than `a` and `b`, with one of the two or
/// the end of the text behind it, is a span of `k`.
pub proof fn lemma_span_exact(s: Seq<char>, pos: int, k: nat, a: char, b: char)
    requires
        0 <= pos,
        pos + k <= s.len(),
        forall|i: int| pos <= i < pos + k ==> s[i] != a && s[i] != b,
        pos + k == s.len() || s[pos + k] == a || s[pos + k] == b,
    ensures
        span(s, pos, a, b) == k,
    decreases k,
{
    if k > 0 {
        lemma_span_exact(s, pos + 1, (k - 1) as nat, a, b);
    }
}

/// No `$` is counted within a span that stops at `$`.
proof fn lemma_dollars_behind_span(s: Seq<char>, pos: int)
    requires
        0 <= pos <= s.len(),
    ensures
        dollars(s, pos) == dollars(s, pos + span(s, pos, '$', '$')),
    decreases s.len() - pos,
{
    if pos < s.len() && s[pos] != '$' {
        lemma_dollars_behind_span(s, pos + 1);
    }
}

/// A body that can be read holds an even number of `$`: each segment is
/// opened by one and closed by another.
pub proof fn lemma_body_dollars_even(s: Seq<char>, pos: int)
    requires
        0 <= pos <= s.len(),
        body_tokens(s, pos) is Ok,
    ensures
        dollars(s, pos) % 2 == 0,
    decreases s.len() - pos,
{
    if pos < s.len() {
        let next = pos + 1 + span(s, pos + 1, '$', '$');
        lemma_span_within(s, pos + 1, '$', '$');
        lemma_dollars_behind_span(s, pos + 1);
        if s[pos] != '$' {
            lemma_body_dollars_even(s, next);
        } else {
            lemma_span_chars(s, pos + 1, '$', '$');
            assert(dollars(s, next) == 1 + dollars(s, next + 1));
            lemma_body_dollars_even(s, next + 1);
        }
    }
}

/// A text without header in which a segment is left open, so that the
/// number of its `$` is odd, is no template.
pub proof fn lemma_open_segment_rejected(s: Seq<char>)
    requires
        !opens_header(s),
        dollars(s, 0) % 2 == 1,
    ensures
        parse(s) is Err,
{
    if body_tokens(s, 0) is Ok {
        lemma_body_dollars_even(s, 0);
    }
}

/// A span that stops at `stop`, or before it, is the same in the text cut
/// off at `stop`.
proof fn lemma_span_in_prefix(s: Seq<char>, pos: int, stop: int, a: char, b: char)
    requires
        0 <= pos <= stop < s.len(),
        s[stop] == a || s[stop] == b,
    ensures
        span(s.take(stop), pos, a, b) == span(s, pos, a, b),
    decreases stop - pos,
{
    if pos < stop {
        assert(s.take(stop)[pos] == s[pos]);
        if s[pos] != a && s[pos] != b {
            lemma_span_in_prefix(s, pos + 1, stop, a, b);
        }
    }
}

/// Where the text up to a `$` can be read as a body, the whole text is
/// read as that body and then as what the `$` begins: an error there is the
/// error of the whole.
proof fn lemma_error_behind_body(s: Seq<char>, pos: int, open: int, e: ParseError)
    requires
        0 <= pos <= open < s.len(),
        s[open] == '$',
        body_tokens(s.take(open), pos) is Ok,
        body_tokens(s, open) == Err::<Seq<TokenView>, _>(e),
    ensures
        body_tokens(s, pos) == Err::<Seq<TokenView>, _>(e),
    decreases open - pos,
{
    if pos < open {
        let front = s.take(open);
        let next = pos + 1 + span(s, pos + 1, '$', '$');
        assert(front[pos] == s[pos]);
        lemma_span_in_prefix(s, pos + 1, open, '$', '$');
        lemma_span_within(front, pos + 1, '$', '$');
        if s[pos] != '$' {
            lemma_error_behind_body(s, next, open, e);
        } else {
            lemma_error_behind_body(s, next + 1, open, e);
        }
    }
}

/// A text without header that ends within a segment, behind a body that
/// can be read, is rejected: the segment is left open.
pub proof fn lemma_unterminated_segment_rejected(s: Seq<char>, open: int)
    requires
        !opens_header(s),
        0 <= open < s.len(),
        s[open] == '$',
        forall|i: int| open < i < s.len() ==> s[i] != '$',
        body_tokens(s.take(open), 0) is Ok,
    ensures
        parse(s) == Err::<TemplateView, _>(ParseError::UnterminatedSegment),
{
    lemma_span_exact(s, open + 1, (s.len() - open - 1) as nat, '$', '$');
    lemma_error_behind_body(s, 0, open, ParseError::UnterminatedSegment);
}

/// A text without header that holds no stem and one slot, with or without
/// art before and after it, is a template of just these tokens.
pub proof fn lemma_single_slot_accepted(before: Seq<char>, slot: Seq<char>, after: Seq<char>)
    requires
        dollar_free(before),
        dollar_free(slot),
        dollar_free(after),
        slot.len() > 0,
        !is_stem(slot),
    ensures
        parse(before + seq!['$'] + slot + seq!['$'] + after) == Ok::<_, ParseError>(
            TemplateView {
                metadata: Seq::empty(),
                tokens: literal_of(before) + seq![TokenView::BalloonSlot] + literal_of(after),
            },
        ),
{
    let s = before + seq!['$'] + slot + seq!['$'] + after;
    let open = before.len() as int;
    let close = open + 1 + slot.len();
    assert(s.len() == before.len() + slot.len() + after.len() + 2);
    assert(forall|i: int| 0 <= i < open ==> s[i] == before[i]);
    assert(s[open] == '$');
    assert(forall|i: int| open < i < close ==> s[i] == slot[i - open - 1]);
    assert(s[close] == '$');
    assert(forall|i: int| close < i < s.len() ==> s[i] == after[i - close - 1]);
    assert(!opens_header(s)) by {
        if s.len() >= 4 {
            assert(s.subrange(0, 4)[0] == s[0]);
            assert(s.subrange(0, 4)[1] == s[1]);
            assert(header_mark()[0] == '$' && header_mark()[1] == '$');
            if open == 0 {
                assert(s[1] == slot[0]);
            }
        }
    }
    // what follows the slot
    let tail = body_tokens(s, close + 1);
    assert(tail == Ok::<_, ParseError>(literal_of(after))) by {
        if after.len() > 0 {
            lemma_span_exact(s, close + 2, (after.len() - 1) as nat, '$', '$');
            assert(s.subrange(close + 1, s.len() as int) =~= after);
            assert(body_tokens(s, s.len() as int) == Ok::<_, ParseError>(Seq::<TokenView>::empty()));
            assert(seq![TokenView::Literal(after)] + Seq::<TokenView>::empty() =~= literal_of(after));
        }
    }
    // the slot
    let middle = body_tokens(s, open);
    assert(middle == Ok::<_, ParseError>(seq![TokenView::BalloonSlot] + literal_of(after))) by {
        lemma_span_exact(s, open + 1, slot.len(), '$', '$');
        assert(s.subrange(open + 1, close) =~= slot);
    }
    // what stands before it
    if before.len() > 0 {
        lemma_span_exact(s, 1, (before.len() - 1) as nat, '$', '$');
        assert(s.subrange(0, open) =~= before);
        assert(seq![TokenView::Literal(before)] + (seq![TokenView::BalloonSlot] + literal_of(after))
            =~= literal_of(before) + seq![TokenView::BalloonSlot] + literal_of(after));
    } else {
        assert(seq![TokenView::BalloonSlot] + literal_of(after) =~= literal_of(before)
            + seq![TokenView::BalloonSlot] + literal_of(after));
    }
}

/// `tokens` behind `front`, where there are tokens.
pub open spec fn behind(
    front: Seq<TokenView>,
    tokens: Result<Seq<TokenView>, ParseError>,
) -> Result<Seq<TokenView>, ParseError> {
    match tokens {
        Ok(rest) => Ok(front + rest),
        Err(e) => Err(e),
    }
}

/// The position of the first character from `pos` on that is `a` or `b`, or
/// the end of the text where there is none.
pub fn span_end(chars: &Vec<char>, pos: usize, a: char, b: char) -> (end: usize)
    requires
        pos <= chars.len(),
    ensures
        end == pos + span(chars@, pos as int, a, b),
        pos <= end <= chars.len(),
{
    let mut end: usize = pos;
    while end < chars.len() && chars[end] != a && chars[end] != b
        invariant
            pos <= end <= chars.len(),
            pos + span(chars@, pos as int, a, b) == end + span(chars@, end as int, a, b),
        decreases chars.len() - end,
    {
        end += 1;
    }
    end
}

/// Whether `chars[from..to]` is the inside of a stem.
pub fn is_stem_content(chars: &Vec<char>, from: usize, to: usize) -> (stem: bool)
    requires
        from <= to <= chars.len(),
    ensures
        stem == is_stem(chars@.subrange(from as int, to as int)),
{
    if from == to {
        return false;
    }
    let ghost content = chars@.subrange(from as int, to as int);
    let mut i: usize = from;
    while i < to
        invariant
            from <= i <= to <= chars.len(),
            content == chars@.subrange(from as int, to as int),
            forall|k: int| 0 <= k < i - from ==> content[k] == '\\' || content[k] == '/',
        decreases to - i,
    {
        if chars[i] != '\\' && chars[i] != '/' {
            assert(content[i - from] == chars@[i as int]);
            return false;
        }
        assert(content[i - from] == chars@[i as int]);
        i += 1;
    }
    true
}

/// Reads the body that starts at `start` and runs to the end of the text.
pub fn parse_pony_body(chars: &Vec<char>, start: usize) -> (body: Result<Vec<Token>, ParseError>)
    requires
        start <= chars.len(),
    ensures
        match body {
            Ok(tokens) => body_tokens(chars@, start as int) == Ok::<_, ParseError>(
                tokens.deep_view(),
            ),
            Err(e) => body_tokens(chars@, start as int) == Err::<Seq<TokenView>, _>(e),
        },
{
    let ghost s = chars@;
    let mut tokens: Vec<Token> = Vec::new();
    let mut pos: usize = start;
    assert(tokens.deep_view() =~= Seq::empty());
    assert(behind(Seq::empty(), body_tokens(s, pos as int)) == body_tokens(s, pos as int)) by {
        if let Ok(rest) = body_tokens(s, pos as int) {
            assert(Seq::<TokenView>::empty() + rest =~= rest);
        }
    }
    while pos < chars.len()
        invariant
            s == chars@,
            start <= pos <= chars.len(),
            body_tokens(s, start as int) == behind(tokens.deep_view(), body_tokens(s, pos as int)),
        decreases chars.len() - pos,
    {
        let ghost before = tokens.deep_view();
        let end = span_end(chars, pos + 1, '$', '$');
        let token = if chars[pos] != '$' {
            let literal = Token::Literal(substring(chars, pos, end));
            pos = end;
            literal
        } else if end >= chars.len() {
            return Err(ParseError::UnterminatedSegment);
        } else if end == pos + 1 {
            return Err(ParseError::EmptySegment);
        } else {
            let segment = if is_stem_content(chars, pos + 1, end) {
                Token::Stem(substring(chars, pos + 1, end))
            } else {
                Token::BalloonSlot
            };
            pos = end + 1;
            segment
        };
        let ghost added = token@;
        tokens.push(token);
        proof {
            assert(tokens.deep_view() =~= before.push(added));
            if let Ok(rest) = body_tokens(s, pos as int) {
                assert(before + (seq![added] + rest) =~= before.push(added) + rest);
            }
        }
    }
    proof {
        assert(tokens.deep_view() + Seq::<TokenView>::empty() =~= tokens.deep_view());
    }
    Ok(tokens)
}

/// Reads the header entry that starts at `pos`, where there is one, and
/// gives it with the position after it.
pub fn parse_metadata_line(chars: &Vec<char>, pos: usize) -> (line: Option<(Entry, usize)>)
    requires
        pos <= chars.len(),
    ensures
        match line {
            Some((entry, next)) => entry_at(chars@, pos as int) == Some((entry@, next as int))
                && pos < next <= chars.len(),
            None => entry_at(chars@, pos as int) is None,
        },
{
    let key_end = span_end(chars, pos, ':', '\n');
    if key_end == pos || key_end >= chars.len() || chars[key_end] != ':' {
        return None;
    }
    let value_start = key_end + 1;
    let value_end = span_end(chars, value_start, '\n', '\n');
    if value_end == value_start || value_end >= chars.len() {
        return None;
    }
    let entry = Entry {
        key: substring(chars, pos, key_end),
        value: substring(chars, value_start, value_end),
    };
    Some((entry, value_end + 1))
}

/// Reads the header entries that follow each other from `pos` on, and gives
/// them with the position after the last.
pub fn parse_metadata_lines(chars: &Vec<char>, pos: usize) -> (lines: (Vec<Entry>, usize))
    requires
        pos <= chars.len(),
    ensures
        entries_from(chars@, pos as int) == (lines.0.deep_view(), lines.1 as int),
        pos <= lines.1 <= chars.len(),
{
    let ghost s = chars@;
    let mut entries: Vec<Entry> = Vec::new();
    let mut at: usize = pos;
    assert(entries.deep_view() =~= Seq::empty());
    assert(Seq::<EntryView>::empty() + entries_from(s, at as int).0 =~= entries_from(
        s,
        at as int,
    ).0);
    loop
        invariant
            s == chars@,
            pos <= at <= chars.len(),
            entries_from(s, pos as int).0 == entries.deep_view() + entries_from(s, at as int).0,
            entries_from(s, pos as int).1 == entries_from(s, at as int).1,
        decreases chars.len() - at,
    {
        let ghost before = entries.deep_view();
        match parse_metadata_line(chars, at) {
            Some((entry, next)) => {
                let ghost added = entry@;
                entries.push(entry);
                proof {
                    assert(entries.deep_view() =~= before.push(added));
                    assert(before + (seq![added] + entries_from(s, next as int).0)
                        =~= before.push(added) + entries_from(s, next as int).0);
                }
                at = next;
            },
            None => {
                assert(entries.deep_view() + Seq::<EntryView>::empty() =~= entries.deep_view());
                return (entries, at);
            },
        }
    }
}

/// Whether the header mark stands at `pos`.
pub fn mark_at(chars: &Vec<char>, pos: usize) -> (found: bool)
    requires
        pos <= chars.len(),
    ensures
        found == (pos + 4 <= chars.len() && chars@.subrange(pos as int, pos + 4) == header_mark()),
{
    if chars.len() - pos < 4 {
        return false;
    }
    let found = chars[pos] == '$' && chars[pos + 1] == '$' && chars[pos + 2] == '$' && chars[pos
        + 3] == '\n';
    proof {
        let part = chars@.subrange(pos as int, pos + 4);
        assert(part[0] == chars@[pos as int]);
        assert(part[1] == chars@[pos + 1]);
        assert(part[2] == chars@[pos + 2]);
        assert(part[3] == chars@[pos + 3]);
        if found {
            assert(part =~= header_mark());
        }
    }
    found
}

/// Reads the header of a text, where it has one, and gives its entries
/// with the position at which the body starts.
pub fn parse_metadata(chars: &Vec<char>) -> (block: Option<(Vec<Entry>, usize)>)
    ensures
        match block {
            Some((entries, start)) => header(chars@) == Some((entries.deep_view(), start as int))
                && start <= chars.len(),
            None => header(chars@) is None,
        },
{
    if !mark_at(chars, 0) {
        return None;
    }
    let (entries, pos) = parse_metadata_lines(chars, 4);
    let end = span_end(chars, pos, '$', '$');
    if end > pos && mark_at(chars, end) {
        Some((entries, end + 4))
    } else {
        None
    }
}

/// Reads a template. The text is a template if and only if `parse` says so,
/// and then the template is the one that `parse` gives; otherwise the error
/// is the one that `parse` gives.
pub fn parse_pony(pony: &str) -> (parsed: Result<Template, ParseError>)
    ensures
        match parsed {
            Ok(template) => parse(pony@) == Ok::<_, ParseError>(template@),
            Err(e) => parse(pony@) == Err::<TemplateView, _>(e),
        },
{
    let chars = to_chars(pony);
    let mut metadata: Vec<Entry> = Vec::new();
    let mut start: usize = 0;
    assert(metadata.deep_view() =~= Seq::empty());
    if mark_at(&chars, 0) {
        match parse_metadata(&chars) {
            Some((entries, body_start)) => {
                metadata = entries;
                start = body_start;
            },
            None => {
                return Err(ParseError::UnclosedMetadata);
            },
        }
    }
    match parse_pony_body(&chars, start) {
        Ok(tokens) => Ok(Template { metadata, tokens }),
        Err(e) => Err(e),
    }
}

} // verus!
