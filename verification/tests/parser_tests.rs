//! Tests of the configuration compiler: the grammar, the symbol tables and
//! the materialized tree.

use dotree::parser::{
    parse, parse_echo_setting, parse_shell_string, parse_string_expr, Command, CommandSetting,
    CompileError, Menu, Node, StringExpr, StringExprElem,
};

const CONF: &str = r#"
    menu root {
        c: custom_commands
        f: !xa"echo "!"xa!
    }

    menu custom_commands {
        h: "print hi" - !"echo hi"!
        c: @"echo ciao"
    }
"#;

const ANON_CMD: &str = r#"
    menu root {
        c: cmd {
            "echo foo"
        }
    }
"#;

const ANON_CMD2: &str = r#"
    menu root {
        c: cmd {
            vars foo,
                bar
            "echo $foo $bar"
        }
    }
"#;

const NAMED_MENU: &str = r#"
    menu root {
        m: menu2
    }

    menu "2nd menu" menu2 {
        f: "echo foo"
    }
"#;

const MISSING_IDENT: &str = r#"
    menu root {
        s: missing
    }
"#;

const NO_ROOT: &str = r#"
    menu no_root {
        a: "echo a"
    }
"#;

const WITH_SETTING: &str = r#"
    menu root {
        a: cmd {
            set repeat
            "touch foo"
        }
    }
"#;

const WITH_SETTING_2: &str = r#"
    menu root {
        a: cmd {
            set repeat, ignore_result
            "touch foo"
        }
    }
"#;

fn entry<'a>(menu: &'a Menu, keys: &str) -> &'a Node {
    let kv: Vec<char> = keys.chars().collect();
    for (k, n) in &menu.entries {
        if *k == kv {
            return n;
        }
    }
    panic!("no entry for the given keys");
}

fn lit_expr(text: &str) -> StringExpr {
    StringExpr(vec![StringExprElem::String(text.to_string())])
}

#[test]
fn test_parsing() {
    let conf = parse(CONF).unwrap();
    let root = &conf.menu;
    assert_eq!(root.name, "root");
    assert_eq!(root.display_name, None);
    assert_eq!(root.entries.len(), 2);

    match entry(root, "c") {
        Node::Menu(m) => {
            assert_eq!(m.name, "custom_commands");
            assert_eq!(m.display_name, None);
            assert_eq!(m.entries.len(), 2);
            match entry(m, "h") {
                Node::Command(c) => {
                    assert_eq!(c.exec_str, lit_expr("echo hi"));
                    assert_eq!(c.name, Some("print hi".to_string()));
                    assert_eq!(c.settings, vec![]);
                    assert_eq!(c.env_vars, vec![]);
                    assert_eq!(c.shell, None);
                    assert_eq!(c.toggle_echo_setting, false);
                }
                _ => panic!("expected a command"),
            }
            match entry(m, "c") {
                Node::Command(c) => {
                    assert_eq!(c.exec_str, lit_expr("echo ciao"));
                    assert_eq!(c.name, None);
                    assert_eq!(c.toggle_echo_setting, true);
                }
                _ => panic!("expected a command"),
            }
        }
        _ => panic!("expected a submenu"),
    }

    match entry(root, "f") {
        Node::Command(c) => {
            assert_eq!(c.exec_str, lit_expr("echo \"!"));
            assert_eq!(c.name, None);
            assert_eq!(c.toggle_echo_setting, false);
        }
        _ => panic!("expected a command"),
    }

    assert_eq!(conf.settings.shell_def, None);
    assert_eq!(conf.settings.echo_by_default, true);
    assert_eq!(conf.snippet_table.entries.len(), 0);
}

#[test]
fn test_missing_ident() {
    let err = parse(MISSING_IDENT).unwrap_err();
    assert_eq!(
        err,
        CompileError::UndefinedSymbol {
            name: "missing".to_string(),
            chain: vec!["root".to_string()],
        }
    );
}

#[test]
fn test_no_root() {
    let err = parse(NO_ROOT).unwrap_err();
    assert_eq!(err, CompileError::MissingRoot);
}

#[test]
fn anon_cmd() {
    let conf = parse(ANON_CMD).unwrap();
    match entry(&conf.menu, "c") {
        Node::Command(c) => {
            assert_eq!(
                *c,
                Command {
                    exec_str: lit_expr("echo foo"),
                    settings: vec![],
                    name: None,
                    shell: None,
                    env_vars: vec![],
                    toggle_echo_setting: false,
                }
            );
        }
        _ => panic!("expected a command"),
    }
}

#[test]
fn anon_cmd_2_args() {
    let conf = parse(ANON_CMD2).unwrap();
    match entry(&conf.menu, "c") {
        Node::Command(c) => {
            assert_eq!(c.exec_str, lit_expr("echo $foo $bar"));
            assert_eq!(c.settings, vec![]);
            assert_eq!(c.name, None);
            assert_eq!(c.shell, None);
            assert_eq!(c.env_vars.len(), 2);
            assert_eq!(c.env_vars[0].name, "foo");
            assert_eq!(c.env_vars[0].value, None);
            assert_eq!(c.env_vars[1].name, "bar");
            assert_eq!(c.env_vars[1].value, None);
            assert_eq!(c.toggle_echo_setting, false);
        }
        _ => panic!("expected a command"),
    }
}

#[test]
fn named_menu() {
    let conf = parse(NAMED_MENU).unwrap();
    match entry(&conf.menu, "m") {
        Node::Menu(m) => {
            assert_eq!(m.name, "menu2");
            assert_eq!(m.display_name, Some("2nd menu".to_string()));
            match entry(m, "f") {
                Node::Command(c) => {
                    assert_eq!(c.exec_str, lit_expr("echo foo"));
                }
                _ => panic!("expected a command"),
            }
        }
        _ => panic!("expected a submenu"),
    }
}

#[test]
fn with_setting() {
    let conf = parse(WITH_SETTING).unwrap();
    match entry(&conf.menu, "a") {
        Node::Command(c) => {
            assert_eq!(c.exec_str, lit_expr("touch foo"));
            assert_eq!(c.settings, vec![CommandSetting::Repeat]);
        }
        _ => panic!("expected a command"),
    }
}

#[test]
fn with_setting2() {
    let conf = parse(WITH_SETTING_2).unwrap();
    match entry(&conf.menu, "a") {
        Node::Command(c) => {
            assert_eq!(c.exec_str, lit_expr("touch foo"));
            assert_eq!(
                c.settings,
                vec![CommandSetting::Repeat, CommandSetting::IgnoreResult]
            );
        }
        _ => panic!("expected a command"),
    }
}

#[test]
fn test_shell_parsing() {
    let sd = parse_shell_string("shell bash -euo pipefail -c").unwrap();
    assert_eq!(sd.name, "bash");
    assert_eq!(
        sd.args,
        vec!["-euo".to_string(), "pipefail".to_string(), "-c".to_string()]
    );
}

#[test]
fn test_snippet_parsing() {
    let expr = parse_string_expr(r#"$a + "b" + $c + "d""#).unwrap();
    assert_eq!(
        expr,
        StringExpr(vec![
            StringExprElem::Symbol("a".to_string()),
            StringExprElem::String("b".to_string()),
            StringExprElem::Symbol("c".to_string()),
            StringExprElem::String("d".to_string()),
        ])
    );
}

#[test]
fn test_echo_rule() {
    assert_eq!(parse_echo_setting("echo on").unwrap(), true);
    assert_eq!(parse_echo_setting("echo off").unwrap(), false);
    assert!(parse_echo_setting("echo foo").is_err());
}
