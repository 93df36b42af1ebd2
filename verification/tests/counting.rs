use parsekit::fieldcut::cut_line;
use parsekit::textcount::{count_lines, count_words};

fn chars(s: &str) -> Vec<char> {
    s.chars().collect()
}

fn text(v: Vec<char>) -> String {
    v.into_iter().collect()
}

#[test]
fn lines_count_newlines_and_trailing_fragment() {
    assert_eq!(count_lines(&b"".to_vec()), 0);
    assert_eq!(count_lines(&b"one line, no newline".to_vec()), 1);
    assert_eq!(count_lines(&b"a\nb\nc\n".to_vec()), 3);
    assert_eq!(count_lines(&b"a\nb\nc".to_vec()), 3);
    assert_eq!(count_lines(&b"\n\n".to_vec()), 2);
}

#[test]
fn words_are_runs_of_non_whitespace() {
    assert_eq!(count_words(&chars("")), 0);
    assert_eq!(count_words(&chars("   ")), 0);
    assert_eq!(count_words(&chars("one")), 1);
    assert_eq!(count_words(&chars("  hello   world \n next\tline ")), 4);
    assert_eq!(count_words(&chars("a\u{00A0}b")), 2);
}

#[test]
fn cut_selects_columns_in_order() {
    assert_eq!(text(cut_line(&chars("a\tb\tc"), '\t', &vec![1, 3])), "a\tc");
    assert_eq!(text(cut_line(&chars("a\tb\tc"), '\t', &vec![2])), "\tb");
    assert_eq!(text(cut_line(&chars("x,y,z"), ',', &vec![3, 1])), "x\tz");
    assert_eq!(text(cut_line(&chars("no separator"), ',', &vec![1])), "no separator");
    assert_eq!(text(cut_line(&chars("a,b"), ',', &vec![5])), "");
    assert_eq!(text(cut_line(&chars("a,,c"), ',', &vec![2, 3])), "\t\tc");
}
