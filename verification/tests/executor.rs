use lib::builtins::ShellState;
use lib::executor::{expand_aliases, prepare_pipeline_stages};

#[test]
fn expands_single_alias() {
    let mut state = ShellState::new();
    state.aliases.insert("ll".to_string(), "list".to_string());

    let args = vec!["ll".to_string()];
    let expanded = expand_aliases(&args, &state).unwrap();

    assert_eq!(expanded, vec!["list"]);
}

#[test]
fn expands_alias_and_keeps_original_arguments() {
    let mut state = ShellState::new();
    state
        .aliases
        .insert("greet".to_string(), "echo hello".to_string());

    let args = vec!["greet".to_string(), "team".to_string()];
    let expanded = expand_aliases(&args, &state).unwrap();

    assert_eq!(expanded, vec!["echo", "hello", "team"]);
}

#[test]
fn detects_alias_loops() {
    let mut state = ShellState::new();
    state.aliases.insert("a".to_string(), "b".to_string());
    state.aliases.insert("b".to_string(), "a".to_string());

    let args = vec!["a".to_string()];
    let err = expand_aliases(&args, &state).unwrap_err();

    assert!(err.contains("alias loop detected"));
}

#[test]
fn expands_aliases_in_pipeline_stage() {
    let builtins = lib::builtins::register();
    let mut state = ShellState::new();
    state
        .aliases
        .insert("grep_r".to_string(), "findstr r".to_string());

    let stages = vec![vec!["grep_r".to_string(), "main".to_string()]];
    let prepared = prepare_pipeline_stages(stages, &builtins, &state).unwrap();

    assert_eq!(prepared, vec![vec!["findstr", "r", "main"]]);
}

#[test]
fn rejects_builtins_in_pipeline_even_via_alias() {
    let builtins = lib::builtins::register();
    let mut state = ShellState::new();
    state.aliases.insert("ll".to_string(), "list".to_string());

    let stages = vec![vec!["ll".to_string()]];
    let err = prepare_pipeline_stages(stages, &builtins, &state).unwrap_err();

    assert!(err.contains("cannot be used in a pipeline"));
}
