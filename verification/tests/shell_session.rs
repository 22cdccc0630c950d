use lib::builtins::{register, Builtin, ShellState};
use lib::executor::{dispatch, expand_aliases, prepare_pipeline_stages, Dispatch};
use lib::shell::{interpret_line, LineAction};

fn words(v: &[&str]) -> Vec<String> {
    v.iter().map(|s| s.to_string()).collect()
}

fn state_with(aliases: &[(&str, &str)]) -> ShellState {
    let mut state = ShellState::new();
    for (name, value) in aliases {
        state.aliases.insert(name.to_string(), value.to_string());
    }
    state
}

#[test]
fn chained_aliases_expand() {
    let state = state_with(&[("a", "b -x"), ("b", "echo hi")]);
    let expanded = expand_aliases(&words(&["a", "y"]), &state).unwrap();
    assert_eq!(expanded, words(&["echo", "hi", "-x", "y"]));
    // expanding again changes nothing
    assert_eq!(expand_aliases(&expanded, &state).unwrap(), expanded);
}

#[test]
fn non_alias_and_empty_commands_are_kept() {
    let state = state_with(&[("ll", "list")]);
    assert_eq!(expand_aliases(&words(&["ls", "ll"]), &state).unwrap(), words(&["ls", "ll"]));
    assert_eq!(expand_aliases(&[], &state).unwrap(), Vec::<String>::new());
}

#[test]
fn alias_error_messages() {
    let state = state_with(&[("ls", "ls -la"), ("bad", "echo 'x"), ("none", "  ")]);
    assert_eq!(
        expand_aliases(&words(&["ls"]), &state).unwrap_err(),
        "alias loop detected for 'ls'"
    );
    assert_eq!(
        expand_aliases(&words(&["bad"]), &state).unwrap_err(),
        "invalid alias 'bad': unmatched quote"
    );
    assert_eq!(
        expand_aliases(&words(&["none", "x"]), &state).unwrap_err(),
        "alias 'none' expands to an empty command"
    );
}

#[test]
fn pipeline_stage_errors() {
    let builtins = register();
    let state = state_with(&[("e", "echo")]);
    assert_eq!(
        prepare_pipeline_stages(vec![words(&["ls"]), vec![]], &builtins, &state).unwrap_err(),
        "empty command in pipeline"
    );
    assert_eq!(
        prepare_pipeline_stages(vec![words(&["ls"]), words(&["e", "x"])], &builtins, &state)
            .unwrap_err(),
        "builtin 'echo' cannot be used in a pipeline"
    );
    assert_eq!(
        prepare_pipeline_stages(vec![words(&["ls"]), words(&["wc"])], &builtins, &state).unwrap(),
        vec![words(&["ls"]), words(&["wc"])]
    );
}

#[test]
fn dispatch_decides_how_to_run() {
    let builtins = register();
    let state = state_with(&[("ll", "list -a"), ("x", "x")]);
    assert_eq!(
        dispatch(&words(&["ll", "dir"]), &builtins, &state),
        Dispatch::Run(Builtin::List, words(&["list", "-a", "dir"]))
    );
    assert_eq!(
        dispatch(&words(&["ls", "-l"]), &builtins, &state),
        Dispatch::Launch(words(&["ls", "-l"]))
    );
    assert_eq!(dispatch(&[], &builtins, &state), Dispatch::Nothing);
    assert_eq!(
        dispatch(&words(&["x"]), &builtins, &state),
        Dispatch::Report("alias loop detected for 'x'".to_string())
    );
}

#[test]
fn lines_are_recorded_trimmed() {
    let builtins = register();
    let mut state = ShellState::new();
    assert_eq!(interpret_line("   \n", &builtins, &mut state), LineAction::Skip);
    assert!(state.history.is_empty());
    assert_eq!(
        interpret_line("  echo hi\n", &builtins, &mut state),
        LineAction::Command(words(&["echo", "hi"]))
    );
    assert_eq!(state.history, words(&["echo hi"]));
}

#[test]
fn lines_with_a_pipe_go_through_the_pipeline() {
    let builtins = register();
    let mut state = ShellState::new();
    assert_eq!(
        interpret_line("ls | wc -l", &builtins, &mut state),
        LineAction::Pipeline(vec![words(&["ls"]), words(&["wc", "-l"])])
    );
    // a quoted pipe still takes the pipeline path, where builtins are refused
    assert_eq!(
        interpret_line("echo \"a|b\"", &builtins, &mut state),
        LineAction::Report("builtin 'echo' cannot be used in a pipeline".to_string())
    );
    assert_eq!(
        interpret_line("echo 'x", &builtins, &mut state),
        LineAction::Report("unmatched quote".to_string())
    );
    assert_eq!(state.history, words(&["ls | wc -l", "echo \"a|b\"", "echo 'x"]));
}
