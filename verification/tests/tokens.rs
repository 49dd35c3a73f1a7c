use chibi::lexer::{delimiter, whitespace};
use chibi::{is_blank, tokenize};

/// Splits after setting every parenthesis and operator apart with spaces.
fn by_padding(input: &str) -> Vec<String> {
    let mut spaced = String::new();
    for c in input.chars() {
        if "()+-*/".contains(c) {
            spaced.push(' ');
            spaced.push(c);
            spaced.push(' ');
        } else {
            spaced.push(c);
        }
    }
    spaced.split_whitespace().map(|s| s.to_string()).collect()
}

#[test]
fn empty_input_has_no_tokens() {
    assert_eq!(tokenize(""), Vec::<String>::new());
    assert_eq!(tokenize("   \t\n"), Vec::<String>::new());
}

#[test]
fn words_and_operators() {
    assert_eq!(tokenize("1 + 2"), vec!["1", "+", "2"]);
    assert_eq!(tokenize("10 / 3"), vec!["10", "/", "3"]);
}

#[test]
fn delimiters_need_no_spaces() {
    assert_eq!(
        tokenize("1+2*(3-4)/5"),
        vec!["1", "+", "2", "*", "(", "3", "-", "4", ")", "/", "5"]
    );
    assert_eq!(tokenize("print(2+3)"), vec!["print", "(", "2", "+", "3", ")"]);
    assert_eq!(tokenize("(("), vec!["(", "("]);
}

#[test]
fn a_word_is_taken_as_it_stands() {
    assert_eq!(tokenize("12a"), vec!["12a"]);
    assert_eq!(tokenize("foo_bar 3.5"), vec!["foo_bar", "3.5"]);
}

#[test]
fn a_word_runs_to_the_next_delimiter_or_space() {
    assert_eq!(tokenize("abc+def"), vec!["abc", "+", "def"]);
    assert_eq!(tokenize("  abc  def  "), vec!["abc", "def"]);
    assert_eq!(tokenize("123"), vec!["123"]);
}

#[test]
fn operators_in_a_row_are_separate_tokens() {
    assert_eq!(tokenize("1 + - 2"), vec!["1", "+", "-", "2"]);
    assert_eq!(tokenize("-5"), vec!["-", "5"]);
    assert_eq!(tokenize("+-*/"), vec!["+", "-", "*", "/"]);
}

#[test]
fn every_kind_of_white_space_separates() {
    assert_eq!(tokenize("1\t2\n3\r4"), vec!["1", "2", "3", "4"]);
    assert_eq!(tokenize("1\u{A0}2"), vec!["1", "2"]);
    assert_eq!(tokenize("1\u{3000}2\u{2003}3\u{85}4"), vec!["1", "2", "3", "4"]);
    assert_eq!(tokenize("1\u{200B}2"), vec!["1\u{200B}2"]);
}

#[test]
fn characters_beyond_ascii_stay_in_their_words() {
    assert_eq!(tokenize("é+ü"), vec!["é", "+", "ü"]);
    assert_eq!(tokenize("数 字"), vec!["数", "字"]);
}

#[test]
fn tokens_are_the_words_of_the_padded_text() {
    let inputs = [
        "",
        " ",
        "1",
        "1 + 2 * (3 + 4)",
        "print(2 + 3) * 4",
        "(1 + 2",
        "print 1 )",
        "a+b-c*d/e(f)g",
        "  12a\t+\n\n(  ",
        "1\u{A0}+\u{2028}2",
        "((((1))))",
        "--1",
        "x y z",
        "é*\u{3000}ü",
    ];
    for input in inputs {
        assert_eq!(tokenize(input), by_padding(input), "input {:?}", input);
    }
}

#[test]
fn white_space_is_what_unicode_calls_white_space() {
    for code in 0..=0x10FFFFu32 {
        if let Some(c) = char::from_u32(code) {
            assert_eq!(whitespace(c), c.is_whitespace(), "U+{:04X}", code);
        }
    }
}

#[test]
fn the_delimiters_are_six() {
    let found: Vec<char> = (0..=0x10FFFFu32)
        .filter_map(char::from_u32)
        .filter(|c| delimiter(*c))
        .collect();
    assert_eq!(found, vec!['(', ')', '*', '+', '-', '/']);
}

#[test]
fn blank_lines() {
    assert!(is_blank(""));
    assert!(is_blank(" \t \u{A0}\n"));
    assert!(!is_blank(" 1 "));
    assert!(!is_blank("+"));
}

#[test]
fn tokens_a_space_apart_are_read_back() {
    let lists: [&[&str]; 5] = [
        &[],
        &["1"],
        &["(", "1", "+", "2", ")", "*", "print", "(", "3", ")"],
        &["+", "+", "abc", "12a", ")", "("],
        &["é", "/", "数字"],
    ];
    for list in lists {
        let text = list.join(" ");
        assert_eq!(tokenize(&text), list.to_vec(), "text {:?}", text);
    }
}
