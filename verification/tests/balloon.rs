use ponysay::balloon::{create_balloon, measure, render_balloon, widest, Line, EMPTY_BALLOON};
use ponysay::wrap::{finish_lines, join_lines, trim_end, white_space, wrap, WRAP_WIDTH};
use unicode_width::UnicodeWidthStr;

fn words(word: &str, count: usize) -> String {
    let mut text = String::new();
    for i in 0..count {
        if i > 0 {
            text.push(' ');
        }
        text.push_str(word);
    }
    text
}

#[test]
fn wrap_width_is_sixty_five() {
    assert_eq!(WRAP_WIDTH, 65);
}

#[test]
fn short_quote_is_one_line() {
    assert_eq!(wrap("Hi"), vec!["Hi".to_string()]);
}

#[test]
fn empty_quote_is_one_empty_line() {
    assert_eq!(wrap(""), vec![String::new()]);
}

#[test]
fn long_quote_breaks_between_words() {
    let lines = wrap(&words("word", 20));
    assert_eq!(lines, vec![words("word", 13), words("word", 7)]);
}

#[test]
fn line_break_in_quote_is_white_space() {
    assert_eq!(join_lines("Hi\nthere\n"), "Hi there ");
    assert_eq!(join_lines("no break"), "no break");
    assert_eq!(wrap("Hi\nthere"), vec!["Hi there".to_string()]);
    assert_eq!(wrap("Hi\n"), vec!["Hi".to_string()]);
    assert_eq!(wrap("\n"), vec![String::new()]);
}

#[test]
fn line_break_is_a_place_to_wrap() {
    let quote = format!("{}\n{}", words("word", 12), words("word", 8));
    assert_eq!(wrap(&quote), vec![words("word", 13), words("word", 7)]);
}

#[test]
fn trailing_white_space_is_trimmed() {
    assert_eq!(wrap("Hi   "), vec!["Hi".to_string()]);
    assert_eq!(wrap("Hi \t"), vec!["Hi".to_string()]);
    assert_eq!(trim_end("Hi \t\n"), "Hi");
    assert_eq!(trim_end("  Hi"), "  Hi");
    assert_eq!(trim_end(" \n "), "");
    assert_eq!(trim_end(""), "");
}

#[test]
fn wrapped_lines_fit_the_width() {
    let quote = "Friendship is magic, and so is a balloon that holds every word of a long \
                 quote without ever growing wider than the column at which it is wrapped, \
                 whatever the words may be and however many of them there are in the end.";
    let lines = wrap(quote);
    assert!(lines.len() > 1);
    for line in &lines {
        assert!(line.width() <= WRAP_WIDTH);
    }
}

#[test]
fn word_wider_than_the_width_stays_whole() {
    assert_eq!(wrap(&"a".repeat(70)), vec!["a".repeat(70)]);
    let quote = format!("hello {} world", "a".repeat(70));
    assert_eq!(wrap(&quote), vec!["hello".to_string(), "a".repeat(70), "world".to_string()]);
    assert_eq!(
        create_balloon(&"a".repeat(70)),
        format!(" {} \n< {} >\n {} ", "_".repeat(72), "a".repeat(70), "-".repeat(72))
    );
}

#[test]
fn wide_characters_count_two_columns() {
    let lines = measure(&vec!["日本語".to_string(), "abc".to_string()]);
    assert_eq!(lines[0], Line::new("日本語".to_string(), 6));
    assert_eq!(lines[1], Line::new("abc".to_string(), 3));
    assert_eq!(widest(&lines), 6);
}

#[test]
fn widest_of_no_line_is_zero() {
    assert_eq!(widest(&Vec::new()), 0);
}

#[test]
fn single_line_balloon() {
    assert_eq!(create_balloon("Hi"), " ____ \n< Hi >\n ---- ");
}

#[test]
fn empty_quote_gives_smallest_balloon() {
    assert_eq!(create_balloon(""), " __ \n<  >\n -- ");
    assert_eq!(create_balloon(""), EMPTY_BALLOON);
}

#[test]
fn balloon_without_lines_has_no_rows() {
    assert_eq!(render_balloon(&Vec::new()), " __ \n -- ");
}

#[test]
fn two_line_balloon() {
    let quote = format!("{} {}", "a".repeat(40), "b".repeat(30));
    let expected = format!(
        " {} \n/ {} \\\n\\ {}{} /\n {} ",
        "_".repeat(42),
        "a".repeat(40),
        "b".repeat(30),
        " ".repeat(10),
        "-".repeat(42)
    );
    assert_eq!(create_balloon(&quote), expected);
}

#[test]
fn quote_with_line_break_is_one_row() {
    assert_eq!(create_balloon("Hi\nthere"), " __________ \n< Hi there >\n ---------- ");
    assert_eq!(create_balloon("Hi\n"), " ____ \n< Hi >\n ---- ");
}

#[test]
fn rendered_lines_are_padded_to_the_widest() {
    let lines = vec![
        Line::new("one".to_string(), 3),
        Line::new("three".to_string(), 5),
        Line::new("2".to_string(), 1),
    ];
    assert_eq!(
        render_balloon(&lines),
        " _______ \n/ one   \\\n| three |\n\\ 2     /\n ------- "
    );
}

#[test]
fn padding_goes_by_columns_not_by_characters() {
    let quote = format!("{} {}", "日".repeat(20), "abcd".repeat(8));
    let expected = format!(
        " {} \n/ {} \\\n\\ {}{} /\n {} ",
        "_".repeat(42),
        "日".repeat(20),
        "abcd".repeat(8),
        " ".repeat(8),
        "-".repeat(42)
    );
    assert_eq!(create_balloon(&quote), expected);
}

#[test]
fn rules_are_four_longer_than_the_balloon_is_wide() {
    let balloon = create_balloon(&words("word", 20));
    let rows: Vec<&str> = balloon.split('\n').collect();
    assert_eq!(rows.len(), 4);
    assert_eq!(rows[0], format!(" {} ", "_".repeat(66)));
    assert_eq!(rows[3], format!(" {} ", "-".repeat(66)));
    assert_eq!(rows[1], format!("/ {} \\", words("word", 13)));
    assert_eq!(rows[2], format!("\\ {}{} /", words("word", 7), " ".repeat(30)));
    for row in rows {
        assert_eq!(row.width(), 68);
    }
}

#[test]
fn white_space_is_the_unicode_property() {
    let listed = |c: char| {
        ('\u{9}'..='\u{d}').contains(&c)
            || c == ' '
            || c == '\u{85}'
            || c == '\u{a0}'
            || c == '\u{1680}'
            || ('\u{2000}'..='\u{200a}').contains(&c)
            || c == '\u{2028}'
            || c == '\u{2029}'
            || c == '\u{202f}'
            || c == '\u{205f}'
            || c == '\u{3000}'
    };
    let mut white = 0;
    for c in '\0'..=char::MAX {
        assert_eq!(c.is_whitespace(), listed(c), "{:?}", c);
        assert_eq!(white_space(c), c.is_whitespace(), "{:?}", c);
        if listed(c) {
            white += 1;
            assert_eq!(trim_end(&format!("a{}", c)), "a");
        }
    }
    assert_eq!(white, 25);
    assert_eq!(trim_end("a\u{200b}"), "a\u{200b}");
    assert_eq!(trim_end("a_"), "a_");
}

#[test]
fn lines_are_finished_for_drawing() {
    let raw = vec!["one  ".to_string(), " two\t".to_string(), "   ".to_string()];
    assert_eq!(finish_lines(&raw), vec!["one".to_string(), " two".to_string(), String::new()]);
    assert_eq!(finish_lines(&vec![]), vec![String::new()]);
}

#[test]
fn lines_hold_nothing_but_the_quote() {
    let quote = "A well-known, long-winded and over-hyphenated quote--with dashes - that has to \
                 be wrapped\nmore than once before it fits into a balloon of sixty-five columns.";
    let lines = wrap(quote);
    assert!(lines.len() > 1);
    for line in &lines {
        for c in line.chars() {
            assert!(c == '-' || c == ' ' || quote.contains(c));
        }
    }
    assert_eq!(lines.join(" "), quote.replace('\n', " "));
}

#[test]
fn quote_without_dollar_gives_balloon_without() {
    let quote = "no money is asked for this well-meant quote, not even where it wraps around";
    assert!(!create_balloon(quote).contains('$'));
    assert!(create_balloon("5$ a ride").contains('$'));
}

#[test]
fn balloon_of_n_lines_is_n_plus_two_lines() {
    for quote in ["", "Hi", "Hi\nthere\n", "\n\n\n", "word ".repeat(60).as_str()] {
        let lines = wrap(quote);
        let balloon = create_balloon(quote);
        assert_eq!(balloon.split('\n').count(), lines.len() + 2, "{:?}", quote);
        assert!(balloon.ends_with(' '));
        for line in &lines {
            assert!(!line.contains('\n'));
        }
    }
}
