use lib::builtins::{register, run_alias, AliasReport, ShellState};
use lib::executor::{expand_aliases, prepare_pipeline_stages};
use lib::parser::split_line;
use lib::pipeline::parse_pipeline;

fn words(v: &[&str]) -> Vec<String> {
    v.iter().map(|s| s.to_string()).collect()
}

fn escape_each(w: &str) -> String {
    w.chars().flat_map(|c| ['\\', c]).collect()
}

#[test]
fn blank_lines_have_no_words() {
    for line in ["", " ", "\t\n", "\u{3000} \u{a0}"] {
        assert_eq!(split_line(line).unwrap(), Vec::<String>::new());
    }
}

#[test]
fn plain_words_round_trip() {
    let ws = words(&["ls", "-la", "x=1", "a|b", "déjà"]);
    assert_eq!(split_line(&ws.join(" ")).unwrap(), ws);
}

#[test]
fn double_quoted_words_round_trip() {
    let ws = words(&["hi there", "", "it's", "a\\b", " | "]);
    let line: Vec<String> = ws.iter().map(|w| format!("\"{}\"", w)).collect();
    assert_eq!(split_line(&line.join(" ")).unwrap(), ws);
}

#[test]
fn escaped_words_round_trip() {
    let ws = words(&["a b", "\"q\"", "'", "\\", "|x|", " "]);
    let line: Vec<String> = ws.iter().map(|w| escape_each(w)).collect();
    assert_eq!(split_line(&line.join(" ")).unwrap(), ws);
}

#[test]
fn line_without_unquoted_pipe_is_one_stage() {
    for line in ["ls -la", "  echo 'a|b'  ", "a\\|b c", "echo \"oops", "x\\ "] {
        let trimmed = line.trim();
        match split_line(trimmed) {
            Ok(w) => assert_eq!(parse_pipeline(line).unwrap(), vec![w]),
            Err(e) => assert_eq!(parse_pipeline(line).unwrap_err(), e),
        }
    }
}

#[test]
fn stages_always_split_into_words() {
    for line in ["a 'x|' | b", "a\\ | b\\", "\"|\"|'|'", "a | b | c"] {
        let stages = lib::pipeline::split_pipeline_stages(line).unwrap();
        for s in &stages {
            assert!(!s.is_empty());
            assert_eq!(s.trim(), s);
            assert!(split_line(s).is_ok());
        }
        assert!(parse_pipeline(line).is_ok());
    }
}

#[test]
fn expansion_keeps_arguments_and_stops_at_non_alias() {
    let mut state = ShellState::new();
    state.aliases.insert("a".to_string(), "b 1".to_string());
    state.aliases.insert("b".to_string(), "c 2".to_string());
    let args = words(&["a", "x", "y"]);
    let out = expand_aliases(&args, &state).unwrap();
    assert_eq!(out, words(&["c", "2", "1", "x", "y"]));
    assert!(state.aliases.get(&out[0]).is_none());
    assert_eq!(&out[out.len() - 2..], &args[1..]);
}

#[test]
fn self_alias_is_a_loop() {
    let mut state = ShellState::new();
    state.aliases.insert("ls".to_string(), "ls --color".to_string());
    let err = expand_aliases(&words(&["ls", "-l"]), &state).unwrap_err();
    assert_eq!(err, "alias loop detected for 'ls'");
}

#[test]
fn prepared_stages_never_run_builtins() {
    let builtins = register();
    let mut state = ShellState::new();
    state.aliases.insert("h".to_string(), "history".to_string());
    for stages in [vec![words(&["h"])], vec![words(&["cat"]), words(&["pwd"])]] {
        assert!(prepare_pipeline_stages(stages, &builtins, &state)
            .unwrap_err()
            .contains("cannot be used in a pipeline"));
    }
}

#[test]
fn define_then_show_alias() {
    let mut state = ShellState::new();
    state.aliases.insert("k".to_string(), "old".to_string());
    let reports = run_alias(&words(&["alias", "k=new value", "k"]), &mut state);
    assert_eq!(
        reports,
        vec![AliasReport::Defined("k".to_string(), "new value".to_string())]
    );
}

#[test]
fn defined_alias_drives_dispatch() {
    let builtins = register();
    let mut state = ShellState::new();
    run_alias(&words(&["alias", "ll=list -a"]), &mut state);
    assert_eq!(
        lib::executor::dispatch(&words(&["ll", "x"]), &builtins, &state),
        lib::executor::Dispatch::Run(lib::builtins::Builtin::List, words(&["list", "-a", "x"]))
    );
}

#[test]
fn stages_round_trip_through_pipes() {
    let stages = words(&["echo 'a | b'", "wc -l", "grep x\\|y", "\"|\""]);
    assert_eq!(lib::pipeline::split_pipeline_stages(&stages.join(" | ")).unwrap(), stages);
}
