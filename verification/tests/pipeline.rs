use lib::pipeline::parse_pipeline;

#[test]
fn splits_stages_on_pipe() {
    let stages = parse_pipeline("echo hi | wc -l").unwrap();
    assert_eq!(stages, vec![vec!["echo", "hi"], vec!["wc", "-l"]]);
}

#[test]
fn keeps_pipe_inside_quotes() {
    let stages = parse_pipeline("echo \"a|b\" | wc -c").unwrap();
    assert_eq!(stages, vec![vec!["echo", "a|b"], vec!["wc", "-c"]]);
}

#[test]
fn keeps_escaped_pipe_inside_stage() {
    let stages = parse_pipeline("echo a\\|b | wc -c").unwrap();
    assert_eq!(stages, vec![vec!["echo", "a|b"], vec!["wc", "-c"]]);
}

#[test]
fn rejects_empty_stage() {
    assert!(parse_pipeline("echo hi || wc -l").is_err());
    assert!(parse_pipeline("| wc -l").is_err());
    assert!(parse_pipeline("echo hi |").is_err());
}

#[test]
fn single_stage_is_one_element() {
    let stages = parse_pipeline("ls -la").unwrap();
    assert_eq!(stages, vec![vec!["ls", "-la"]]);
}
