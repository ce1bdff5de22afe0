use crate::template::{
    body_tokens, dollar_free, entries_from, header, is_stem, lemma_entries_within,
    lemma_span_chars, lemma_span_exact, lemma_span_within, literal_of, opens_header, parse,
    parse_pony, span, ParseError, TemplateView, Token, TokenView,
};
use vstd::prelude::*;

verus! {

/// What is printed for a token: a literal as it stands, a stem between two
/// spaces, and the balloon in the balloon's slot.
pub open spec fn token_text(token: TokenView, balloon: Seq<char>) -> Seq<char> {
    match token {
        TokenView::Literal(text) => text,
        TokenView::Stem(marks) => seq![' '] + marks + seq![' '],
        TokenView::BalloonSlot => balloon,
    }
}

/// What is printed for a body: the texts of its tokens, one after the other.
pub open spec fn composed(tokens: Seq<TokenView>, balloon: Seq<char>) -> Seq<char>
    decreases tokens.len(),
{
    if tokens.len() == 0 {
        Seq::empty()
    } else {
        composed(tokens.drop_last(), balloon) + token_text(tokens.last(), balloon)
    }
}

/// The number of balloon slots among `tokens`.
pub open spec fn slots(tokens: Seq<TokenView>) -> nat
    decreases tokens.len(),
{
    if tokens.len() == 0 {
        0
    } else {
        slots(tokens.drop_last()) + if tokens.last() is BalloonSlot {
            1nat
        } else {
            0nat
        }
    }
}

/// A body without a slot is printed the same whatever the balloon.
pub proof fn lemma_no_slot_no_balloon(tokens: Seq<TokenView>, a: Seq<char>, b: Seq<char>)
    requires
        slots(tokens) == 0,
    ensures
        composed(tokens, a) == composed(tokens, b),
    decreases tokens.len(),
{
    if tokens.len() > 0 {
        lemma_no_slot_no_balloon(tokens.drop_last(), a, b);
    }
}

/// Whether a token is as reading makes it: a literal holds something and no
/// `$`, a stem holds one or more of `\` and `/` and nothing else.
pub open spec fn token_formed(token: TokenView) -> bool {
    match token {
        TokenView::Literal(text) => text.len() > 0 && dollar_free(text),
        TokenView::Stem(marks) => is_stem(marks),
        TokenView::BalloonSlot => true,
    }
}

/// Whether every token is as reading makes it.
pub open spec fn tokens_formed(tokens: Seq<TokenView>) -> bool {
    forall|i: int| 0 <= i < tokens.len() ==> token_formed(#[trigger] tokens[i])
}

/// The tokens of a body that can be read are as reading makes them.
pub proof fn lemma_body_tokens_formed(s: Seq<char>, pos: int)
    requires
        0 <= pos <= s.len(),
        body_tokens(s, pos) is Ok,
    ensures
        tokens_formed(body_tokens(s, pos)->Ok_0),
    decreases s.len() - pos,
{
    if pos < s.len() {
        let next = pos + 1 + span(s, pos + 1, '$', '$');
        lemma_span_within(s, pos + 1, '$', '$');
        lemma_span_chars(s, pos + 1, '$', '$');
        let tokens = body_tokens(s, pos)->Ok_0;
        if s[pos] != '$' {
            lemma_body_tokens_formed(s, next);
            let rest = body_tokens(s, next)->Ok_0;
            let text = s.subrange(pos, next);
            assert(dollar_free(text)) by {
                assert forall|i: int| 0 <= i < text.len() implies text[i] != '$' by {
                    assert(text[i] == s[pos + i]);
                }
            }
            assert forall|i: int| 0 <= i < tokens.len() implies token_formed(
                #[trigger] tokens[i],
            ) by {
                if i > 0 {
                    assert(tokens[i] == rest[i - 1]);
                }
            }
        } else {
            lemma_body_tokens_formed(s, next + 1);
            let rest = body_tokens(s, next + 1)->Ok_0;
            assert forall|i: int| 0 <= i < tokens.len() implies token_formed(
                #[trigger] tokens[i],
            ) by {
                if i > 0 {
                    assert(tokens[i] == rest[i - 1]);
                }
            }
        }
    }
}

/// Tokens as reading makes them, with a balloon that holds no `$`, are
/// printed without any `$`.
pub proof fn lemma_composed_dollar_free(tokens: Seq<TokenView>, balloon: Seq<char>)
    requires
        tokens_formed(tokens),
        dollar_free(balloon),
    ensures
        dollar_free(composed(tokens, balloon)),
    decreases tokens.len(),
{
    if tokens.len() > 0 {
        let front = tokens.drop_last();
        assert(tokens_formed(front)) by {
            assert forall|i: int| 0 <= i < front.len() implies token_formed(
                #[trigger] front[i],
            ) by {
                assert(front[i] == tokens[i]);
            }
        }
        lemma_composed_dollar_free(front, balloon);
        assert(token_formed(tokens[tokens.len() - 1]));
        assert(dollar_free(token_text(tokens.last(), balloon)));
    }
}

/// A text that holds no `$` is a template of one literal, or of nothing
/// where the text is empty: it has no header, no stem and no slot.
pub proof fn lemma_plain_text_is_one_literal(text: Seq<char>)
    requires
        dollar_free(text),
    ensures
        parse(text) == Ok::<_, ParseError>(
            TemplateView { metadata: Seq::empty(), tokens: literal_of(text) },
        ),
{
    assert(!opens_header(text)) by {
        if text.len() >= 4 {
            assert(text.subrange(0, 4)[0] == text[0]);
        }
    }
    if text.len() > 0 {
        lemma_span_exact(text, 1, (text.len() - 1) as nat, '$', '$');
        assert(text.subrange(0, text.len() as int) =~= text);
        assert(body_tokens(text, text.len() as int) == Ok::<_, ParseError>(
            Seq::<TokenView>::empty(),
        ));
        assert(seq![TokenView::Literal(text)] + Seq::<TokenView>::empty() =~= literal_of(text));
    }
}

/// What is shown for a template, with a balloon that holds no `$`, holds no
/// `$` either. Read as a template again it is one literal: header, stems
/// and slot are used up, and the tokens of the template do not come back.
pub proof fn lemma_shown_is_plain(text: Seq<char>, balloon: Seq<char>)
    requires
        parse(text) is Ok,
        dollar_free(balloon),
    ensures
        ({
            let shown = composed(parse(text)->Ok_0.tokens, balloon);
            &&& dollar_free(shown)
            &&& parse(shown) == Ok::<_, ParseError>(
                TemplateView { metadata: Seq::empty(), tokens: literal_of(shown) },
            )
        }),
{
    let start = if opens_header(text) {
        header(text)->Some_0.1
    } else {
        0
    };
    if opens_header(text) {
        let at = entries_from(text, 4).1;
        lemma_entries_within(text, 4);
        lemma_span_within(text, at, '$', '$');
    }
    lemma_body_tokens_formed(text, start);
    let tokens = parse(text)->Ok_0.tokens;
    assert(tokens == body_tokens(text, start)->Ok_0);
    lemma_composed_dollar_free(tokens, balloon);
    lemma_plain_text_is_one_literal(composed(tokens, balloon));
}

/// Counts the balloon slots among `tokens`. A template is meant to have
/// exactly one.
pub fn count_slots(tokens: &Vec<Token>) -> (count: usize)
    ensures
        count == slots(tokens.deep_view()),
{
    let ghost view = tokens.deep_view();
    let mut count: usize = 0;
    let mut i: usize = 0;
    assert(view.take(0) =~= Seq::empty());
    while i < tokens.len()
        invariant
            i <= tokens.len(),
            view == tokens.deep_view(),
            count == slots(view.take(i as int)),
            count <= i,
        decreases tokens.len() - i,
    {
        proof {
            assert(view.take(i + 1).drop_last() =~= view.take(i as int));
            assert(view.take(i + 1).last() == tokens[i as int]@);
        }
        if let Token::BalloonSlot = tokens[i] {
            count += 1;
        }
        i += 1;
    }
    assert(view.take(i as int) =~= view);
    count
}

/// Puts the balloon into a body. The tokens are printed in their order: a
/// literal as it stands, a stem between two spaces, the balloon in place of
/// a slot. Every slot gets the balloon, however many there are, and a body
/// without a slot is printed without it: a caller that wants exactly one
/// balloon counts the slots first.
pub fn compose(tokens: &Vec<Token>, balloon: &str) -> (out: String)
    ensures
        out@ == composed(tokens.deep_view(), balloon@),
{
    let ghost view = tokens.deep_view();
    let mut out = String::new();
    let mut i: usize = 0;
    assert(view.take(0) =~= Seq::empty());
    while i < tokens.len()
        invariant
            i <= tokens.len(),
            view == tokens.deep_view(),
            out@ == composed(view.take(i as int), balloon@),
        decreases tokens.len() - i,
    {
        proof {
            assert(view.take(i + 1).drop_last() =~= view.take(i as int));
            assert(view.take(i + 1).last() == tokens[i as int]@);
        }
        let ghost before = out@;
        match &tokens[i] {
            Token::Literal(text) => {
                out.append(text.as_str());
            },
            Token::Stem(marks) => {
                out.push(' ');
                out.append(marks.as_str());
                out.push(' ');
                assert(out@ =~= before + (seq![' '] + marks@ + seq![' ']));
            },
            Token::BalloonSlot => {
                out.append(balloon);
            },
        }
        i += 1;
    }
    assert(view.take(i as int) =~= view);
    out
}

/// Reads a template and puts the balloon into its body. A text that is no
/// template gives the error that says why.
pub fn render(pony: &str, balloon: &str) -> (out: Result<String, ParseError>)
    ensures
        match parse(pony@) {
            Ok(template) => out matches Ok(text) && text@ == composed(template.tokens, balloon@),
            Err(e) => out == Err::<String, _>(e),
        },
{
    match parse_pony(pony) {
        Ok(template) => Ok(compose(&template.tokens, balloon)),
        Err(e) => Err(e),
    }
}

} // verus!
