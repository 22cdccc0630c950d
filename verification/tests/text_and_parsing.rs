use lib::parser::split_line;
use lib::pipeline::{parse_pipeline, split_pipeline_stages, stages_runnable};
use lib::text::{chars_of, is_whitespace, string_of, trim_str};

fn words(v: &[&str]) -> Vec<String> {
    v.iter().map(|s| s.to_string()).collect()
}

#[test]
fn whitespace_agrees_with_std_for_every_char() {
    for n in 0u32..=0x10FFFF {
        if let Some(c) = char::from_u32(n) {
            assert_eq!(is_whitespace(c), c.is_whitespace(), "char {:#x}", n);
        }
    }
}

#[test]
fn trim_agrees_with_std() {
    let samples = [
        "", "   ", " a ", "\t\nabc \u{3000}", "a b", "\u{a0}x\u{85}", "x\\ ", " \"q\" ",
    ];
    for s in samples {
        assert_eq!(trim_str(s), s.trim());
    }
}

#[test]
fn chars_and_substrings() {
    let cs = chars_of("héllo");
    assert_eq!(cs, vec!['h', 'é', 'l', 'l', 'o']);
    assert_eq!(string_of(&cs, 1, 3), "él");
    assert_eq!(string_of(&cs, 2, 2), "");
}

#[test]
fn split_single_quotes_and_escapes() {
    assert_eq!(split_line("echo 'a b' c\\ d").unwrap(), words(&["echo", "a b", "c d"]));
    assert_eq!(split_line("a\"b c\"d").unwrap(), words(&["ab cd"]));
    assert_eq!(split_line("'it\"s'").unwrap(), words(&["it\"s"]));
    assert_eq!(split_line("\"back\\slash\"").unwrap(), words(&["back\\slash"]));
}

#[test]
fn split_empty_quotes_give_empty_word() {
    assert_eq!(split_line("a \"\" b").unwrap(), words(&["a", "", "b"]));
    assert_eq!(split_line("''").unwrap(), words(&[""]));
}

#[test]
fn split_trailing_backslash_is_dropped() {
    assert_eq!(split_line("abc\\").unwrap(), words(&["abc"]));
    assert_eq!(split_line("\\").unwrap(), Vec::<String>::new());
}

#[test]
fn split_runs_of_whitespace() {
    assert_eq!(split_line("\t a \n\n b  ").unwrap(), words(&["a", "b"]));
}

#[test]
fn split_unmatched_quote_message() {
    assert_eq!(split_line("echo 'oops").unwrap_err(), "unmatched quote");
    assert_eq!(split_line("\"").unwrap_err(), "unmatched quote");
}

#[test]
fn stage_texts_are_trimmed_and_keep_quotes() {
    let stages = split_pipeline_stages("  echo \"a|b\"  |  wc\\ -c ").unwrap();
    assert_eq!(stages, words(&["echo \"a|b\"", "wc\\ -c"]));
}

#[test]
fn stage_errors_carry_their_message() {
    assert_eq!(split_pipeline_stages("a || b").unwrap_err(), "empty command in pipeline");
    assert_eq!(split_pipeline_stages("a | ").unwrap_err(), "empty command in pipeline");
    assert_eq!(split_pipeline_stages("a | 'b").unwrap_err(), "unmatched quote");
    assert_eq!(split_pipeline_stages("   ").unwrap_err(), "empty command in pipeline");
}

#[test]
fn empty_stage_is_reported_before_open_quote() {
    assert_eq!(parse_pipeline("| 'x").unwrap_err(), "empty command in pipeline");
}

#[test]
fn three_stage_pipeline() {
    let stages = parse_pipeline("cat f|grep 'a b'|wc").unwrap();
    assert_eq!(
        stages,
        vec![words(&["cat", "f"]), words(&["grep", "a b"]), words(&["wc"])]
    );
}

#[test]
fn runnable_stages() {
    assert!(!stages_runnable(&[]));
    assert!(!stages_runnable(&[words(&["a"]), vec![]]));
    assert!(stages_runnable(&[words(&["a"]), words(&["b", "c"])]));
}
