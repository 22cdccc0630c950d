use lib::parser::split_line;

#[test]
fn splits_on_whitespace() {
    assert_eq!(split_line("ls -la").unwrap(), vec!["ls", "-la"]);
}

#[test]
fn handles_double_quotes() {
    assert_eq!(
        split_line("echo \"hi there\"").unwrap(),
        vec!["echo", "hi there"]
    );
}

#[test]
fn handles_empty_line() {
    assert_eq!(split_line("   ").unwrap(), Vec::<String>::new());
}

#[test]
fn rejects_unterminated_quote() {
    assert!(split_line("echo \"oops").is_err());
}
