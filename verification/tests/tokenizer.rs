use tfidf_index::error::ModelError;
use tfidf_index::tokenizer::{Tokenizer, SEPARATORS};

fn tokens(text: &str) -> Vec<String> {
    Tokenizer::tokenize(text).expect("the separator pattern compiles")
}

#[test]
fn test_tokenizer() {
    let input = "Test; testing!\nThis is another sentence; with tokens.";
    let tokens = Tokenizer::tokenize(input).unwrap();
    let expected_tokens = vec![
        "Test", "testing", "This", "is", "another", "sentence", "with", "tokens",
    ];
    assert_eq!(tokens, expected_tokens);
}

#[test]
fn empty_text_has_no_tokens() {
    assert_eq!(tokens(""), Vec::<String>::new());
}

#[test]
fn text_of_separators_has_no_tokens() {
    assert_eq!(tokens(" \t\r\n1234 .,;:!? 5_6-7"), Vec::<String>::new());
}

#[test]
fn one_word_is_one_token() {
    assert_eq!(tokens("word"), vec!["word"]);
}

#[test]
fn separators_at_both_ends_leave_no_empty_token() {
    assert_eq!(tokens("  left right  "), vec!["left", "right"]);
    assert_eq!(tokens("...a"), vec!["a"]);
    assert_eq!(tokens("a..."), vec!["a"]);
}

#[test]
fn case_is_kept() {
    assert_eq!(tokens("Test test TEST tEsT"), vec!["Test", "test", "TEST", "tEsT"]);
}

#[test]
fn tokens_are_not_made_unique() {
    assert_eq!(tokens("apple apple apple"), vec!["apple", "apple", "apple"]);
}

#[test]
fn digits_and_marks_separate() {
    assert_eq!(tokens("abc123def_ghi-jkl'mn"), vec!["abc", "def", "ghi", "jkl", "mn"]);
}

#[test]
fn letters_outside_ascii_separate() {
    let text = "na\u{ef}ve caf\u{e9} \u{e9}t\u{e9} \u{3b1}\u{3b2}z";
    assert_eq!(tokens(text), vec!["na", "ve", "caf", "t", "z"]);
}

#[test]
fn the_edges_of_the_alphabet_are_letters() {
    assert_eq!(tokens("@AZ[`az{"), vec!["AZ", "az"]);
}

#[test]
fn a_word_broken_by_a_line_break_is_two_tokens() {
    assert_eq!(tokens("to\nken"), vec!["to", "ken"]);
    assert_eq!(tokens("to\r\nken"), vec!["to", "ken"]);
}

#[test]
fn tokens_of_a_text_are_those_of_its_lines() {
    let first = "Test; testing!";
    let second = "This is another sentence; with tokens.";
    let mut by_line = tokens(first);
    by_line.extend(tokens(second));
    assert_eq!(tokens(&format!("{}\n{}", first, second)), by_line);
    assert_eq!(tokens(&format!("{}7{}", first, second)), by_line);
}

#[test]
fn pieces_become_tokens_in_order() {
    let pieces = vec![
        String::new(),
        String::from("b"),
        String::new(),
        String::from("a"),
        String::from("b"),
        String::new(),
    ];
    let tokens = Tokenizer::tokens_from(Ok(pieces)).unwrap();
    assert_eq!(tokens, vec!["b", "a", "b"]);
}

#[test]
fn a_pattern_that_does_not_compile_is_reported() {
    let cause = regex::Regex::new("[").unwrap_err();
    let text = cause.to_string();
    match Tokenizer::tokens_from(Err(cause)) {
        Err(ModelError::Pattern(kept)) => assert_eq!(kept.to_string(), text),
        _ => panic!("the pattern's error is handed on"),
    }
}

#[test]
fn the_separator_pattern_is_one_or_more_non_letters() {
    assert_eq!(SEPARATORS, "[^a-zA-Z]+");
    assert!(regex::Regex::new(SEPARATORS).is_ok());
}

fn is_letter(c: char) -> bool {
    ('a' <= c && c <= 'z') || ('A' <= c && c <= 'Z')
}

fn pieces(text: &[char]) -> Vec<String> {
    match text.split_last() {
        None => vec![String::new()],
        Some((&last, before)) => {
            let mut found = pieces(before);
            if is_letter(last) {
                found.last_mut().unwrap().push(last);
            } else if before.last().map_or(true, |&c| is_letter(c)) {
                found.push(String::new());
            }
            found
        }
    }
}

#[test]
fn the_separator_pattern_cuts_text_into_its_pieces() {
    let splitter = regex::Regex::new(SEPARATORS).unwrap();
    let alphabet = ['a', 'Z', ' ', '7', '\n', '\u{e9}'];
    let mut texts: Vec<Vec<char>> = vec![Vec::new()];
    let mut from = 0;
    for _ in 0..5 {
        let upto = texts.len();
        for at in from..upto {
            for c in alphabet {
                let mut longer = texts[at].clone();
                longer.push(c);
                texts.push(longer);
            }
        }
        from = upto;
    }
    assert_eq!(texts.len(), 1 + 6 + 36 + 216 + 1296 + 7776);
    for text in texts {
        let whole: String = text.iter().collect();
        let cut: Vec<String> = splitter.split(&whole).map(String::from).collect();
        assert_eq!(cut, pieces(&text), "for {:?}", whole);
        let kept: Vec<String> = cut.into_iter().filter(|piece| !piece.is_empty()).collect();
        assert_eq!(tokens(&whole), kept, "for {:?}", whole);
    }
}

#[test]
fn every_text_is_split() {
    for text in ["", "\u{0}", "\u{10ffff}a", "[^a-zA-Z]+", "(", "\\", "a\u{300}b"] {
        assert!(Tokenizer::tokenize(text).is_ok(), "for {:?}", text);
    }
    assert_eq!(tokens("[^a-zA-Z]+"), vec!["a", "zA", "Z"]);
}
