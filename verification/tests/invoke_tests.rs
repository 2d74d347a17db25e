//! Tests of the invocation planner, the expression resolver, the compile
//! errors and the small utilities.

use dotree::invoke::{
    bind_env_vars, check_arg_count, command_outcome_ok, effective_shell, make_exec_spec,
    vars_to_prompt, InvocationError,
};
use dotree::outproxy::{count_newlines, OutProxy};
use dotree::parser::{
    parse, Command, CompileError, Node, ResolveError, Settings, ShellDef, SnippetTable,
    StringExpr, StringExprElem, VarDef,
};
use dotree::rt_conf;
use dotree::text::{chars_of, string_from_chars};

fn lit(s: &str) -> StringExprElem {
    StringExprElem::String(s.to_string())
}

fn sym(s: &str) -> StringExprElem {
    StringExprElem::Symbol(s.to_string())
}

fn plain_command(vars: Vec<VarDef>) -> Command {
    Command {
        exec_str: StringExpr(vec![lit("echo $a $b")]),
        settings: vec![],
        name: None,
        shell: None,
        env_vars: vars,
        toggle_echo_setting: false,
    }
}

fn var(name: &str) -> VarDef {
    VarDef { name: name.to_string(), value: None }
}

#[test]
fn one_positional_one_prompted() {
    // two variables, one positional argument: the first binds to the
    // argument, the second is prompted for
    let cmd = plain_command(vec![var("a"), var("b")]);
    assert!(check_arg_count(&cmd, 1).is_ok());
    let missing = vars_to_prompt(&cmd, 1);
    assert_eq!(missing, vec![var("b")]);
    let bound = bind_env_vars(
        &cmd.env_vars,
        &vec!["from-arg".to_string()],
        &vec!["from-prompt".to_string()],
    );
    assert_eq!(
        bound,
        vec![
            ("a".to_string(), "from-arg".to_string()),
            ("b".to_string(), "from-prompt".to_string()),
        ]
    );
}

#[test]
fn too_many_arguments() {
    let cmd = plain_command(vec![var("a")]);
    assert_eq!(check_arg_count(&cmd, 2), Err(InvocationError::TooManyArguments));
    assert!(check_arg_count(&cmd, 1).is_ok());
    assert!(check_arg_count(&cmd, 0).is_ok());
}

#[test]
fn shell_choice() {
    let settings_default = Settings { shell_def: None, echo_by_default: true };
    let zsh = ShellDef { name: "zsh".to_string(), args: vec!["-c".to_string()] };
    let fish = ShellDef { name: "fish".to_string(), args: vec!["-c".to_string()] };

    // no override anywhere: the built-in default fails fast
    let cmd = plain_command(vec![]);
    let shell = effective_shell(&cmd, &settings_default);
    assert_eq!(shell.name, "bash");
    assert_eq!(shell.args, vec!["-euo", "pipefail", "-c"]);

    // the configuration's setting overrides the default
    let settings_zsh = Settings { shell_def: Some(zsh), echo_by_default: true };
    assert_eq!(effective_shell(&cmd, &settings_zsh).name, "zsh");

    // the command's own override wins
    let cmd_fish = Command { shell: Some(fish), ..plain_command(vec![]) };
    assert_eq!(effective_shell(&cmd_fish, &settings_zsh).name, "fish");
}

#[test]
fn exec_spec_appends_command_text() {
    let shell = ShellDef {
        name: "bash".to_string(),
        args: vec!["-euo".to_string(), "pipefail".to_string(), "-c".to_string()],
    };
    assert_eq!(shell.args_with("echo hi"), vec!["-euo", "pipefail", "-c", "echo hi"]);
    let spec = make_exec_spec(&shell, "echo hi");
    assert_eq!(spec.prog, "bash");
    assert_eq!(spec.args, vec!["-euo", "pipefail", "-c", "echo hi"]);
}

#[test]
fn outcome_respects_ignore_result() {
    assert!(command_outcome_ok(true, false));
    assert!(command_outcome_ok(true, true));
    assert!(command_outcome_ok(false, true));
    assert!(!command_outcome_ok(false, false));
}

#[test]
fn repeat_flag() {
    let conf = r#"
        menu root {
            a: cmd {
                set repeat, ignore_result
                "true"
            }
            b: "echo hi"
        }
    "#;
    let cfg = parse(conf).unwrap();
    for (k, n) in &cfg.menu.entries {
        if let Node::Command(c) = n {
            if *k == vec!['a'] {
                assert!(c.repeat());
                assert!(c.ignore_result());
            } else {
                assert!(!c.repeat());
                assert!(!c.ignore_result());
            }
        }
    }
}

#[test]
fn snippet_resolution_concatenates() {
    let mut table = SnippetTable::new();
    table.insert("b".to_string(), StringExpr(vec![lit("-y-")]));
    table.insert("a".to_string(), StringExpr(vec![lit("x"), sym("b"), lit("z")]));
    let expr = StringExpr(vec![lit("<"), sym("a"), lit(">")]);
    assert_eq!(expr.resolve(&table).unwrap(), "<x-y-z>");
}

#[test]
fn snippet_redeclaration_overrides() {
    let mut table = SnippetTable::new();
    table.insert("a".to_string(), StringExpr(vec![lit("old")]));
    table.insert("a".to_string(), StringExpr(vec![lit("new")]));
    let expr = StringExpr(vec![sym("a")]);
    assert_eq!(expr.resolve(&table).unwrap(), "new");
}

#[test]
fn undefined_snippet_is_reported() {
    let table = SnippetTable::new();
    let expr = StringExpr(vec![sym("nowhere")]);
    assert_eq!(
        expr.resolve(&table),
        Err(ResolveError::UndefinedSnippet("nowhere".to_string()))
    );
}

#[test]
fn snippet_cycle_is_reported() {
    let mut table = SnippetTable::new();
    table.insert("a".to_string(), StringExpr(vec![sym("b")]));
    table.insert("b".to_string(), StringExpr(vec![sym("a")]));
    let expr = StringExpr(vec![sym("a")]);
    assert_eq!(
        expr.resolve(&table),
        Err(ResolveError::ResolutionCycle(vec![
            "a".to_string(),
            "b".to_string(),
            "a".to_string(),
        ]))
    );
}

#[test]
fn snippets_from_config_text() {
    let conf = r#"
        menu root {
            a: $greet + " world"
        }

        snippet greet = "hello"
    "#;
    let cfg = parse(conf).unwrap();
    match &cfg.menu.entries[0].1 {
        Node::Command(c) => {
            assert_eq!(c.exec_str.resolve(&cfg.snippet_table).unwrap(), "hello world");
        }
        _ => panic!("expected a command"),
    }
}

#[test]
fn menu_cycle_is_rejected() {
    let conf = r#"
        menu root {
            a: other
        }

        menu other {
            b: root
        }
    "#;
    let err = parse(conf).unwrap_err();
    assert_eq!(
        err,
        CompileError::MenuCycle {
            name: "root".to_string(),
            chain: vec!["root".to_string(), "other".to_string()],
        }
    );
}

#[test]
fn duplicate_key_path_is_rejected() {
    let conf = r#"
        menu root {
            a: "first"
            a: "second"
        }
    "#;
    let err = parse(conf).unwrap_err();
    assert_eq!(
        err,
        CompileError::DuplicateKeyPath {
            menu: "root".to_string(),
            keys: vec!['a'],
            chain: vec!["root".to_string()],
        }
    );
}

#[test]
fn duplicate_menu_name_is_rejected() {
    let conf = r#"
        menu root {
            a: "first"
        }

        menu root {
            b: "second"
        }
    "#;
    let err = parse(conf).unwrap_err();
    assert_eq!(err, CompileError::DuplicateMenuName { name: "root".to_string() });
}

#[test]
fn sibling_prefix_keys_are_legal() {
    // one key path may be a strict prefix of another; only identical key
    // paths are rejected
    let conf = r#"
        menu root {
            a: "X"
            ab: "Y"
        }
    "#;
    assert!(parse(conf).is_ok());
}

#[test]
fn unterminated_menu_is_a_grammar_error() {
    let err = parse("menu root {").unwrap_err();
    assert!(matches!(err, CompileError::GrammarError { .. }));
}

#[test]
fn global_settings_block() {
    let conf = r#"
        shell zsh -c
        echo off

        menu root {
            a: "echo hi"
        }
    "#;
    let cfg = parse(conf).unwrap();
    let sd = cfg.settings.shell_def.unwrap();
    assert_eq!(sd.name, "zsh");
    assert_eq!(sd.args, vec!["-c"]);
    assert_eq!(cfg.settings.echo_by_default, false);
}

#[test]
fn empty_config_misses_root() {
    assert_eq!(parse("").unwrap_err(), CompileError::MissingRoot);
}

#[test]
fn later_setting_overrides_earlier() {
    let conf = r#"
        shell zsh -c
        shell fish -c
        echo off
        echo on

        menu root {
            a: "echo hi"
        }
    "#;
    let cfg = parse(conf).unwrap();
    assert_eq!(cfg.settings.shell_def.unwrap().name, "fish");
    assert_eq!(cfg.settings.echo_by_default, true);
}

#[test]
fn quick_command_toggle_with_display_name() {
    let conf = r#"
        menu root {
            a: "named" - @"echo a"
            b: @"plain" - "echo b"
        }
    "#;
    let cfg = parse(conf).unwrap();
    for (k, n) in &cfg.menu.entries {
        if let Node::Command(c) = n {
            assert!(c.toggle_echo_setting);
            if *k == vec!['a'] {
                assert_eq!(c.name, Some("named".to_string()));
            } else {
                assert_eq!(c.name, Some("plain".to_string()));
            }
        }
    }
}

#[test]
fn display_strings() {
    let expr = StringExpr(vec![sym("a"), lit("b")]);
    assert_eq!(expr.display_string(), "a + \"b\"");

    let quoted = StringExpr(vec![lit("say \"hi\\\"")]);
    assert_eq!(quoted.display_string(), "\"say \\\"hi\\\\\\\"\"");

    let named = Command { name: Some("label".to_string()), ..plain_command(vec![]) };
    assert_eq!(named.display_string(), "label");

    let conf = parse(
        r#"
        menu root {
            m: menu2
        }

        menu "second" menu2 {
            f: "echo f"
        }
    "#,
    )
    .unwrap();
    assert_eq!(Node::Menu(conf.menu).display_string(), "root");
}

#[test]
fn newline_accounting() {
    assert_eq!(count_newlines(b"one\ntwo\n\nthree"), 3);
    assert_eq!(count_newlines(b""), 0);
    assert_eq!(count_newlines(b"no newline"), 0);

    let mut proxy = OutProxy::new();
    assert_eq!(proxy.n_lines, 0);
    proxy.record_write(b"a\nb\n");
    proxy.record_write(b"c");
    assert_eq!(proxy.n_lines, 2);
    proxy.reset();
    assert_eq!(proxy.n_lines, 0);
}

#[test]
fn runtime_conf_holds_values() {
    let settings = Settings { shell_def: None, echo_by_default: false };
    let conf = rt_conf::init(Some("/tmp/proj".to_string()), settings);
    assert_eq!(rt_conf::local_conf_dir(&conf), Some(&"/tmp/proj".to_string()));
    assert_eq!(rt_conf::settings(&conf).echo_by_default, false);

    let conf2 = rt_conf::init(None, Settings { shell_def: None, echo_by_default: true });
    assert_eq!(rt_conf::local_conf_dir(&conf2), None);
}

#[test]
fn text_round_trip() {
    let v = chars_of("menu root");
    assert_eq!(v, vec!['m', 'e', 'n', 'u', ' ', 'r', 'o', 'o', 't']);
    assert_eq!(string_from_chars(&v), "menu root");
}

#[test]
fn default_variable_values() {
    let conf = r#"
        menu root {
            c: cmd {
                vars branch = "main", message
                "git commit"
            }
        }
    "#;
    let cfg = parse(conf).unwrap();
    match &cfg.menu.entries[0].1 {
        Node::Command(c) => {
            assert_eq!(c.env_vars.len(), 2);
            assert_eq!(c.env_vars[0].name, "branch");
            assert_eq!(c.env_vars[0].value, Some("main".to_string()));
            assert_eq!(c.env_vars[1].name, "message");
            assert_eq!(c.env_vars[1].value, None);
        }
        _ => panic!("expected a command"),
    }
}

#[test]
fn command_shell_override_from_config() {
    let conf = r#"
        menu root {
            c: cmd {
                shell sh -c
                "ls"
            }
        }
    "#;
    let cfg = parse(conf).unwrap();
    match &cfg.menu.entries[0].1 {
        Node::Command(c) => {
            let sd = c.shell.as_ref().unwrap();
            assert_eq!(sd.name, "sh");
            assert_eq!(sd.args, vec!["-c"]);
            let eff = effective_shell(c, &cfg.settings);
            assert_eq!(eff.name, "sh");
        }
        _ => panic!("expected a command"),
    }
}
