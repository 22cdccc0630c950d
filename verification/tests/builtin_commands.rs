use lib::aliases::AliasTable;
use lib::builtins::{
    builtin_exit, echo_text, name_le_exec, plan_cd, register, run_alias, sort_listing, AliasReport,
    Builtin, CdPlan, ControlFlow, ShellState,
};

fn words(v: &[&str]) -> Vec<String> {
    v.iter().map(|s| s.to_string()).collect()
}

#[test]
fn register_holds_the_nine_builtins() {
    let table = register();
    let expected = [
        ("cd", Builtin::Cd),
        ("help", Builtin::Help),
        ("exit", Builtin::Exit),
        ("pwd", Builtin::Pwd),
        ("history", Builtin::History),
        ("alias", Builtin::Alias),
        ("echo", Builtin::Echo),
        ("list", Builtin::List),
        ("clear", Builtin::Clear),
    ];
    for (name, kind) in expected {
        assert_eq!(table.get(name), Some(kind));
        assert!(table.contains_key(name));
    }
    assert_eq!(table.get("ls"), None);
    assert!(!table.contains_key("Echo"));
    let mut names = table.names();
    names.sort();
    assert_eq!(
        names,
        words(&["alias", "cd", "clear", "echo", "exit", "help", "history", "list", "pwd"])
    );
}

#[test]
fn exit_asks_to_exit_with_zero() {
    let mut state = ShellState::new();
    state.history.push("exit".to_string());
    assert_eq!(builtin_exit(&words(&["exit", "3"]), &mut state), ControlFlow::Exit(0));
    assert_eq!(state.history, words(&["exit"]));
}

#[test]
fn cd_plans() {
    assert_eq!(plan_cd(&words(&["cd"])), CdPlan::Home);
    assert_eq!(plan_cd(&words(&["cd", "~"])), CdPlan::Home);
    assert_eq!(plan_cd(&words(&["cd", "/tmp"])), CdPlan::Dir("/tmp".to_string()));
    assert_eq!(plan_cd(&words(&["cd", "~/x"])), CdPlan::Dir("~/x".to_string()));
    assert_eq!(plan_cd(&words(&["cd", "a", "b"])), CdPlan::TooManyArguments);
}

#[test]
fn echo_joins_with_single_spaces() {
    assert_eq!(echo_text(&words(&["echo", "hello", "from", "rsh"])), "hello from rsh");
    assert_eq!(echo_text(&words(&["echo"])), "");
    assert_eq!(echo_text(&words(&["echo", "a b", ""])), "a b ");
}

#[test]
fn alias_table_insert_replaces() {
    let mut table = AliasTable::new();
    assert!(table.get("ll").is_none());
    table.insert("ll".to_string(), "list".to_string());
    table.insert("g".to_string(), "grep".to_string());
    table.insert("ll".to_string(), "list -a".to_string());
    assert_eq!(table.get("ll").unwrap(), "list -a");
    assert_eq!(table.get("g").unwrap(), "grep");
    let mut entries = table.entries();
    entries.sort();
    assert_eq!(
        entries,
        vec![
            ("g".to_string(), "grep".to_string()),
            ("ll".to_string(), "list -a".to_string())
        ]
    );
}

#[test]
fn alias_defines_then_shows() {
    let mut state = ShellState::new();
    let reports = run_alias(&words(&["alias", "ll=list", "ll", "nope"]), &mut state);
    assert_eq!(
        reports,
        vec![
            AliasReport::Defined("ll".to_string(), "list".to_string()),
            AliasReport::Missing("nope".to_string())
        ]
    );
    assert_eq!(state.aliases.get("ll").unwrap(), "list");
}

#[test]
fn alias_splits_at_first_equals_sign() {
    let mut state = ShellState::new();
    let reports = run_alias(&words(&["alias", "x=a=b", "=v"]), &mut state);
    assert!(reports.is_empty());
    assert_eq!(state.aliases.get("x").unwrap(), "a=b");
    assert_eq!(state.aliases.get("").unwrap(), "v");
}

#[test]
fn alias_alone_lists_every_alias() {
    let mut state = ShellState::new();
    state.aliases.insert("a".to_string(), "b".to_string());
    state.aliases.insert("c".to_string(), "d e".to_string());
    let mut reports = run_alias(&words(&["alias"]), &mut state);
    reports.sort_by(|x, y| format!("{:?}", x).cmp(&format!("{:?}", y)));
    assert_eq!(
        reports,
        vec![
            AliasReport::Defined("a".to_string(), "b".to_string()),
            AliasReport::Defined("c".to_string(), "d e".to_string())
        ]
    );
    let empty = run_alias(&words(&["alias"]), &mut ShellState::new());
    assert!(empty.is_empty());
}

#[test]
fn name_order_agrees_with_std() {
    let samples = ["", "a", "b", "ab", "aB", "Z", "é", "e", "zz", "a\u{10000}", "a\u{ffff}"];
    for x in samples {
        for y in samples {
            assert_eq!(
                name_le_exec(&x.to_string(), &y.to_string()),
                x <= y,
                "{:?} {:?}",
                x,
                y
            );
        }
    }
}

#[test]
fn listing_is_sorted_by_name() {
    let entries = vec![
        ("src".to_string(), true),
        ("Cargo.toml".to_string(), false),
        ("README.md".to_string(), false),
        ("app".to_string(), true),
        ("a".to_string(), false),
    ];
    let mut expected = entries.clone();
    expected.sort_by(|a, b| a.0.cmp(&b.0));
    assert_eq!(sort_listing(entries), expected);
    assert_eq!(sort_listing(Vec::new()), Vec::new());
}

#[test]
fn default_state_is_empty() {
    let state = ShellState::default();
    assert!(state.history.is_empty());
    assert!(state.aliases.entries().is_empty());
}
