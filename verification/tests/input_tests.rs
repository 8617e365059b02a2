use reactor::input::{is_whitespace, parse_input, tokenize};

fn by_std(input: &str) -> Vec<Vec<String>> {
    input
        .lines()
        .map(|line| line.split_whitespace().map(String::from).collect())
        .filter(|tokens: &Vec<String>| !tokens.is_empty())
        .collect()
}

fn words(lines: &[&[&str]]) -> Vec<Vec<String>> {
    lines
        .iter()
        .map(|l| l.iter().map(|w| w.to_string()).collect())
        .collect()
}

#[test]
fn tokenize_splits_lines_and_words() {
    let got = tokenize("a b\n\n  c\td \r\n");
    assert_eq!(got, words(&[&["a", "b"], &["c", "d"]]));
}

#[test]
fn tokenize_empty_and_blank_input() {
    assert_eq!(tokenize(""), Vec::<Vec<String>>::new());
    assert_eq!(tokenize("   \n\t\n\r\n"), Vec::<Vec<String>>::new());
}

#[test]
fn tokenize_last_line_without_newline() {
    assert_eq!(tokenize("x 1.5\ny"), words(&[&["x", "1.5"], &["y"]]));
}

#[test]
fn tokenize_unicode_white_space() {
    assert_eq!(
        tokenize("a\u{3000}b\u{a0}c\u{2028}d"),
        words(&[&["a", "b", "c", "d"]])
    );
}

#[test]
fn tokenize_agrees_with_std() {
    let inputs = [
        "",
        "\n",
        "one",
        "one two\nthree\n",
        "  lead and trail  \n\n\n mid\r\nend",
        "tabs\tand\x0bvertical\x0cfeed\rcarriage\n",
        "ünïcödé wörds\u{85}next\u{2009}thin\n\u{1680}",
        "grid 10 2.5\n5 2.7\n\nmaterial fuel\n",
    ];
    for input in inputs.iter() {
        assert_eq!(tokenize(input), by_std(input), "input {:?}", input);
    }
}

#[test]
fn parse_input_reads_words_of_each_line() {
    let text = "grid_r 10 2.5\n\ngrid_z 10 11.0\n";
    assert_eq!(
        parse_input(text),
        words(&[&["grid_r", "10", "2.5"], &["grid_z", "10", "11.0"]])
    );
}

#[test]
fn is_whitespace_agrees_with_std() {
    for u in 0u32..=0x10FFFF {
        if let Some(c) = char::from_u32(u) {
            assert_eq!(is_whitespace(c), c.is_whitespace(), "char {:#x}", u);
        }
    }
}

#[test]
fn tokens_are_nonempty_words_without_white_space() {
    let text = " a\u{2003}bc \n\n\t\u{205f}\n d\re  f\u{3000}\n";
    let lines = tokenize(text);
    assert_eq!(lines.len(), 2);
    for line in lines.iter() {
        assert!(!line.is_empty());
        for word in line.iter() {
            assert!(!word.is_empty());
            assert!(word.chars().all(|c| !c.is_whitespace()));
        }
    }
}
