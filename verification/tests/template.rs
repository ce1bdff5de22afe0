use ponysay::compose::{compose, count_slots, render};
use ponysay::template::{parse_metadata, parse_pony, Entry, ParseError, Template, Token};
use ponysay::text::to_chars;

fn literal(text: &str) -> Token {
    Token::Literal(text.to_string())
}

fn stem(marks: &str) -> Token {
    Token::Stem(marks.to_string())
}

fn entry(key: &str, value: &str) -> Entry {
    Entry { key: key.to_string(), value: value.to_string() }
}

#[test]
fn body_with_one_slot_and_no_stem() {
    let template = parse_pony("art\n$balloon$\nmore art\n").unwrap();
    assert_eq!(
        template,
        Template {
            metadata: vec![],
            tokens: vec![literal("art\n"), Token::BalloonSlot, literal("\nmore art\n")],
        }
    );
}

#[test]
fn slot_alone_is_a_template() {
    let template = parse_pony("$balloon5$").unwrap();
    assert_eq!(template.tokens, vec![Token::BalloonSlot]);
    assert!(template.metadata.is_empty());
}

#[test]
fn empty_text_is_an_empty_template() {
    let template = parse_pony("").unwrap();
    assert!(template.tokens.is_empty());
    assert!(template.metadata.is_empty());
}

#[test]
fn stems_keep_their_marks() {
    let template = parse_pony("$balloon$\n  $\\$\n   $\\$\n $/$ $\\/\\$").unwrap();
    assert_eq!(
        template.tokens,
        vec![
            Token::BalloonSlot,
            literal("\n  "),
            stem("\\"),
            literal("\n   "),
            stem("\\"),
            literal("\n "),
            stem("/"),
            literal(" "),
            stem("\\/\\"),
        ]
    );
}

#[test]
fn header_entries_are_kept_in_order() {
    let text = "$$$\nNAME: Twilight\nGROUP: mane\nNAME: again\n\nfree text\n$$$\n$balloon$art";
    let template = parse_pony(text).unwrap();
    assert_eq!(
        template.metadata,
        vec![entry("NAME", " Twilight"), entry("GROUP", " mane"), entry("NAME", " again")]
    );
    assert_eq!(template.tokens, vec![Token::BalloonSlot, literal("art")]);
}

#[test]
fn header_without_entries() {
    let template = parse_pony("$$$\n\n$$$\n$x$").unwrap();
    assert!(template.metadata.is_empty());
    assert_eq!(template.tokens, vec![Token::BalloonSlot]);
}

#[test]
fn header_needs_free_text_before_its_end() {
    assert_eq!(parse_pony("$$$\nNAME: x\n$$$\n$balloon$"), Err(ParseError::UnclosedMetadata));
    assert_eq!(parse_pony("$$$\n$$$\n$balloon$"), Err(ParseError::UnclosedMetadata));
}

#[test]
fn header_that_is_not_closed() {
    assert_eq!(parse_pony("$$$\nNAME: x\n\nart"), Err(ParseError::UnclosedMetadata));
    assert_eq!(parse_pony("$$$\n"), Err(ParseError::UnclosedMetadata));
    assert_eq!(parse_pony("$$$\nNAME: x\n\n$$$"), Err(ParseError::UnclosedMetadata));
}

#[test]
fn segment_that_is_not_closed() {
    assert_eq!(parse_pony("art $balloon"), Err(ParseError::UnterminatedSegment));
    assert_eq!(parse_pony("$"), Err(ParseError::UnterminatedSegment));
    assert_eq!(parse_pony("$balloon$ art $\\"), Err(ParseError::UnterminatedSegment));
}

#[test]
fn segment_that_holds_nothing() {
    assert_eq!(parse_pony("art $$ art"), Err(ParseError::EmptySegment));
    assert_eq!(parse_pony("$$$ art"), Err(ParseError::EmptySegment));
}

#[test]
fn first_error_is_reported() {
    assert_eq!(parse_pony("$$ $open"), Err(ParseError::EmptySegment));
    assert_eq!(parse_pony("$a$$"), Err(ParseError::UnterminatedSegment));
}

#[test]
fn compose_puts_the_balloon_into_the_slot() {
    let tokens = vec![literal("a\n"), Token::BalloonSlot, literal("\n"), stem("\\"), literal("z")];
    assert_eq!(compose(&tokens, "<balloon>"), "a\n<balloon>\n \\ z");
}

#[test]
fn stem_is_printed_between_two_spaces() {
    assert_eq!(compose(&vec![stem("\\/")], "unused"), " \\/ ");
}

#[test]
fn every_slot_gets_the_balloon() {
    let tokens = vec![Token::BalloonSlot, literal("-"), Token::BalloonSlot];
    assert_eq!(count_slots(&tokens), 2);
    assert_eq!(compose(&tokens, "o"), "o-o");
}

#[test]
fn body_without_slot_is_printed_without_balloon() {
    let tokens = vec![literal("art")];
    assert_eq!(count_slots(&tokens), 0);
    assert_eq!(compose(&tokens, "o"), "art");
}

#[test]
fn render_reads_and_composes() {
    let text = "$$$\nNAME: x\n\n$$$\n$balloon$\n $\\$\n  pony\n";
    assert_eq!(render(text, "< Hi >"), Ok("< Hi >\n  \\ \n  pony\n".to_string()));
    assert_eq!(render("$open", "< Hi >"), Err(ParseError::UnterminatedSegment));
}

#[test]
fn composed_text_is_no_template_again() {
    let shown = render("$balloon$ pony costs 5$", "o");
    assert_eq!(shown, Err(ParseError::UnterminatedSegment));
    let shown = render("$balloon$ pony", "costs 5$").unwrap();
    assert_eq!(shown, "costs 5$ pony");
    assert_eq!(parse_pony(&shown), Err(ParseError::UnterminatedSegment));
}

#[test]
fn text_without_the_mark_has_no_header() {
    assert_eq!(parse_metadata(&to_chars("NAME: x\n\n$$$\n")), None);
    assert_eq!(parse_metadata(&to_chars("")), None);
    assert_eq!(parse_metadata(&to_chars("$$$")), None);
    assert_eq!(
        parse_metadata(&to_chars("$$$\nNAME: x\n\n$$$\nart")),
        Some((vec![entry("NAME", " x")], 17))
    );
}
