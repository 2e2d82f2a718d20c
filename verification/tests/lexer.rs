use totient::lexer::{find_skipped, tokenize, tokenize_chars};
use totient::token::Token;

fn variable(name: &str) -> Token {
    Token::Variable(name.to_string())
}

fn literal(digits: &str) -> Token {
    Token::Literal(digits.to_string())
}

#[test]
fn letters_make_one_variable() {
    assert_eq!(tokenize("abc"), vec![variable("abc")]);
    assert_eq!(tokenize("Z"), vec![variable("Z")]);
    assert_eq!(tokenize("loremIpsumDolor"), vec![variable("loremIpsumDolor")]);
}

#[test]
fn digits_make_one_literal() {
    assert_eq!(tokenize("12345"), vec![literal("12345")]);
    assert_eq!(tokenize("0"), vec![literal("0")]);
}

#[test]
fn leading_zeros_are_kept() {
    assert_eq!(tokenize("007"), vec![literal("007")]);
}

#[test]
fn keyword_is_matched_exactly() {
    assert_eq!(tokenize("return"), vec![Token::Return]);
    assert_eq!(tokenize("returns"), vec![variable("returns")]);
}

#[test]
fn longer_identifiers_are_not_keywords() {
    assert_eq!(tokenize("returning"), vec![variable("returning")]);
    assert_eq!(tokenize("returnx"), vec![variable("returnx")]);
    assert_eq!(tokenize("return1"), vec![variable("return1")]);
    assert_eq!(tokenize("retur"), vec![variable("retur")]);
}

#[test]
fn keyword_is_case_sensitive() {
    assert_eq!(tokenize("Return"), vec![variable("Return")]);
    assert_eq!(tokenize("RETURN"), vec![variable("RETURN")]);
}

#[test]
fn each_semicolon_is_one_token() {
    assert_eq!(tokenize(";"), vec![Token::Semicolon]);
    assert_eq!(
        tokenize(";;;"),
        vec![Token::Semicolon, Token::Semicolon, Token::Semicolon]
    );
}

#[test]
fn semicolons_split_neighbouring_runs() {
    assert_eq!(
        tokenize("a;b;1;"),
        vec![
            variable("a"),
            Token::Semicolon,
            variable("b"),
            Token::Semicolon,
            literal("1"),
            Token::Semicolon,
        ]
    );
    assert_eq!(
        tokenize("return;return"),
        vec![Token::Return, Token::Semicolon, Token::Return]
    );
}

#[test]
fn semicolon_count_matches_input() {
    let source = "x; ;;12;return;;; y ;";
    let expected = source.chars().filter(|c| *c == ';').count();
    let found = tokenize(source)
        .iter()
        .filter(|t| **t == Token::Semicolon)
        .count();
    assert_eq!(found, expected);
    assert_eq!(found, 8);
}

#[test]
fn identifier_may_hold_digits_after_first_letter() {
    assert_eq!(tokenize("ab12cd"), vec![variable("ab12cd")]);
    assert_eq!(tokenize("x1"), vec![variable("x1")]);
}

#[test]
fn numeral_stops_at_a_letter() {
    assert_eq!(tokenize("12ab"), vec![literal("12"), variable("ab")]);
    assert_eq!(tokenize("1return"), vec![literal("1"), Token::Return]);
}

#[test]
fn run_closes_at_end_of_input() {
    assert_eq!(tokenize("return x"), vec![Token::Return, variable("x")]);
    assert_eq!(tokenize("x 12"), vec![variable("x"), literal("12")]);
    assert_eq!(tokenize("; return"), vec![Token::Semicolon, Token::Return]);
    assert_eq!(tokenize("a"), vec![variable("a")]);
    assert_eq!(tokenize("7"), vec![literal("7")]);
}

#[test]
fn other_characters_are_skipped() {
    assert_eq!(tokenize(" \t\r\n"), Vec::<Token>::new());
    assert_eq!(tokenize("+-*/(){}=,."), Vec::<Token>::new());
    assert_eq!(tokenize("a+b"), vec![variable("a"), variable("b")]);
    assert_eq!(tokenize("x = 3"), vec![variable("x"), literal("3")]);
    assert_eq!(tokenize("snake_case"), vec![variable("snake"), variable("case")]);
    assert_eq!(tokenize("-5"), vec![literal("5")]);
    assert_eq!(tokenize("1.5"), vec![literal("1"), literal("5")]);
}

#[test]
fn whitespace_of_any_width_separates() {
    assert_eq!(
        tokenize("  return\n\n\t 5   ;  "),
        vec![Token::Return, literal("5"), Token::Semicolon]
    );
}

#[test]
fn letters_beyond_ascii_are_letters() {
    assert_eq!(tokenize("café"), vec![variable("café")]);
    assert_eq!(tokenize("京都1;"), vec![variable("京都1"), Token::Semicolon]);
    assert_eq!(tokenize("é"), vec![variable("é")]);
}

#[test]
fn digits_beyond_ascii_are_digits() {
    assert_eq!(tokenize("٣٤"), vec![literal("٣٤")]);
    assert_eq!(tokenize("1¾"), vec![literal("1¾")]);
}

#[test]
fn symbols_beyond_ascii_are_skipped() {
    assert_eq!(tokenize("💝"), Vec::<Token>::new());
    assert_eq!(tokenize("a💝b→;"), vec![variable("a"), variable("b"), Token::Semicolon]);
}

#[test]
fn a_numeric_letter_starts_an_identifier() {
    // U+2167 is both alphabetic and numeric: the letter test comes first.
    let c = '\u{2167}';
    assert!(c.is_alphabetic());
    assert!(c.is_numeric());
    assert_eq!(tokenize("\u{2167}"), vec![variable("\u{2167}")]);
    assert_eq!(tokenize("1\u{2167}"), vec![literal("1\u{2167}")]);
}

#[test]
fn multibyte_input_is_scanned_to_its_end() {
    let source = "ééééé return ñ;";
    assert_eq!(
        tokenize(source),
        vec![variable("ééééé"), Token::Return, variable("ñ"), Token::Semicolon]
    );
}

#[test]
fn chars_and_text_agree() {
    let source = "return x1; 42 y;é";
    let chars: Vec<char> = source.chars().collect();
    assert_eq!(tokenize_chars(&chars), tokenize(source));
    assert_eq!(tokenize_chars(&[]), Vec::<Token>::new());
    assert_eq!(
        tokenize_chars(&['r', 'e', 't', 'u', 'r', 'n', ';']),
        vec![Token::Return, Token::Semicolon]
    );
}

#[test]
fn ascii_characters_are_classified_one_by_one() {
    for code in 0u8..=0x7f {
        let c = code as char;
        let tokens = tokenize(&c.to_string());
        if c.is_ascii_alphabetic() {
            assert_eq!(tokens, vec![variable(&c.to_string())]);
        } else if c.is_ascii_digit() {
            assert_eq!(tokens, vec![literal(&c.to_string())]);
        } else if c == ';' {
            assert_eq!(tokens, vec![Token::Semicolon]);
        } else {
            assert_eq!(tokens, Vec::<Token>::new());
        }
    }
}

#[test]
fn continuation_is_letter_or_digit() {
    for code in 0u32..=0x10ffff {
        let c = match char::from_u32(code) {
            Some(c) => c,
            None => continue,
        };
        let source = format!("a{}", c);
        let tokens = tokenize(&source);
        if c.is_alphabetic() || c.is_numeric() {
            assert_eq!(tokens, vec![variable(&source)]);
        } else if c == ';' {
            assert_eq!(tokens, vec![variable("a"), Token::Semicolon]);
        } else {
            assert_eq!(tokens, vec![variable("a")]);
        }
    }
}

#[test]
fn long_input_is_scanned() {
    let mut source = String::new();
    for i in 0..2000 {
        source.push_str("return ");
        source.push_str(&i.to_string());
        source.push_str(";\n");
    }
    let tokens = tokenize(&source);
    assert_eq!(tokens.len(), 6000);
    assert_eq!(tokens[0], Token::Return);
    assert_eq!(tokens[5998], literal("1999"));
    assert_eq!(tokens[5999], Token::Semicolon);
}

fn skipped_in(source: &str) -> Vec<usize> {
    let chars: Vec<char> = source.chars().collect();
    find_skipped(&chars)
}

#[test]
fn skipped_characters_are_found() {
    assert_eq!(skipped_in("a+b; c"), vec![1, 4]);
    assert_eq!(skipped_in(" \n"), vec![0, 1]);
    assert_eq!(skipped_in("x = (1);"), vec![1, 2, 3, 4, 6]);
}

#[test]
fn nothing_is_skipped_in_tokens_alone() {
    assert_eq!(skipped_in(""), Vec::<usize>::new());
    assert_eq!(skipped_in("abc123;"), Vec::<usize>::new());
    assert_eq!(skipped_in("return;;9"), Vec::<usize>::new());
}

#[test]
fn skipped_positions_count_characters() {
    assert_eq!(skipped_in("é→1"), vec![1]);
    assert_eq!(skipped_in("京都 💝;"), vec![2, 3]);
}

#[test]
fn tokens_hold_all_but_the_skipped() {
    let source = "return x1+y;\n 42 → z;;";
    let chars: Vec<char> = source.chars().collect();
    let skipped = find_skipped(&chars);
    let kept: String = chars
        .iter()
        .enumerate()
        .filter(|(i, _)| !skipped.contains(i))
        .map(|(_, c)| *c)
        .collect();
    let texts: Vec<String> = tokenize(source).iter().map(|t| t.text()).collect();
    assert_eq!(texts.concat(), kept);
    assert_eq!(kept, "returnx1y;42z;;");
}
