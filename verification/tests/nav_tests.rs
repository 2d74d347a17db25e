//! Tests of the key-path resolver: incremental matching, prefix ambiguity,
//! invalid-input behavior and session navigation.

use dotree::nav::{
    apply_key, consumed_prefix_len, find_submenus_for, follow_path, join_lines, keysection_len,
    navigate, session_after_command, split_lines, KeyEvent, Submenus,
};
use dotree::parser::{parse, Command, Menu, Node};

fn chars(s: &str) -> Vec<char> {
    s.chars().collect()
}

fn tree(conf: &str) -> Node {
    Node::Menu(parse(conf).unwrap().menu)
}

fn as_command(n: &Node) -> &Command {
    match n {
        Node::Command(c) => c,
        _ => panic!("expected a command"),
    }
}

fn as_menu(n: &Node) -> &Menu {
    match n {
        Node::Menu(m) => m,
        _ => panic!("expected a menu"),
    }
}

const GIT_CONF: &str = r#"
    menu root {
        g: git
    }

    menu git {
        s: "git status"
        d: "git diff"
    }
"#;

const PREFIX_CONF: &str = r#"
    menu root {
        a: "X"
        ab: "Y"
    }
"#;

#[test]
fn seed_resolves_to_command() {
    // a seed input consumed in one pass resolves through the submenu
    let root = tree(GIT_CONF);
    let buf = chars("gs");
    let (node, off) = follow_path(&root, &buf, 0);
    assert_eq!(off, 2);
    let c = as_command(node.unwrap());
    assert_eq!(c.display_string(), "\"git status\"");
}

#[test]
fn keystrokes_match_seed() {
    // feeding "gd" as a seed and feeding 'g' then 'd' as keystrokes reach
    // the same terminal node
    let root = tree(GIT_CONF);

    let seed = chars("gd");
    let (seed_node, seed_off) = follow_path(&root, &seed, 0);

    let mut buf: Vec<char> = Vec::new();
    assert!(!apply_key(&mut buf, KeyEvent::Char('g')));
    let (mid, mid_off) = navigate(&root, &mut buf);
    assert_eq!(as_menu(mid).name, "git");
    assert_eq!(mid_off, 1);
    assert!(!apply_key(&mut buf, KeyEvent::Char('d')));
    let (node, off) = navigate(&root, &mut buf);

    assert_eq!(off, seed_off);
    assert_eq!(as_command(node), as_command(seed_node.unwrap()));
}

#[test]
fn ambiguity_resolved_by_more_typing() {
    // with sibling keys "ax" and "ab", one character keeps both alive
    let conf = r#"
        menu root {
            ax: "X"
            ab: "Y"
        }
    "#;
    let root = tree(conf);

    // "a" keeps both entries alive: incomplete, offset unchanged
    let buf = chars("a");
    let (node, off) = follow_path(&root, &buf, 0);
    assert_eq!(off, 0);
    assert_eq!(as_menu(node.unwrap()).name, "root");

    // "ab" resolves to its entry
    let buf = chars("ab");
    let (node, off) = follow_path(&root, &buf, 0);
    assert_eq!(off, 2);
    assert_eq!(as_command(node.unwrap()).display_string(), "\"Y\"");

    // "az" eliminates every entry
    let buf = chars("az");
    let (node, off) = follow_path(&root, &buf, 0);
    assert!(node.is_none());
    assert_eq!(off, 0);
}

#[test]
fn shorter_exact_match_wins() {
    // scanning stops at the earliest fully consumed key path: with sibling
    // keys "a" and "ab", the entry "a" wins the moment 'a' arrives
    let conf = parse(PREFIX_CONF).unwrap();
    match find_submenus_for(&conf.menu, &chars("a"), 0) {
        Submenus::Exact(idx, new_pos) => {
            assert_eq!(new_pos, 1);
            assert_eq!(conf.menu.entries[idx].0, chars("a"));
        }
        r => panic!("expected exact, got {:?}", r),
    }
    match find_submenus_for(&conf.menu, &chars("ab"), 0) {
        Submenus::Exact(idx, new_pos) => {
            assert_eq!(new_pos, 1);
            assert_eq!(conf.menu.entries[idx].0, chars("a"));
        }
        r => panic!("expected exact, got {:?}", r),
    }
    let root = tree(PREFIX_CONF);
    let buf = chars("a");
    let (node, off) = follow_path(&root, &buf, 0);
    assert_eq!(off, 1);
    assert_eq!(as_command(node.unwrap()).display_string(), "\"X\"");
}

#[test]
fn invalid_input_stays_invalid() {
    // once every entry is eliminated, appending characters never revives one
    let conf = parse(PREFIX_CONF).unwrap();
    match find_submenus_for(&conf.menu, &chars("x"), 0) {
        Submenus::NoMatch => {}
        r => panic!("expected no match, got {:?}", r),
    }
    match find_submenus_for(&conf.menu, &chars("xa"), 0) {
        Submenus::NoMatch => {}
        r => panic!("expected no match, got {:?}", r),
    }
    match find_submenus_for(&conf.menu, &chars("xab"), 0) {
        Submenus::NoMatch => {}
        r => panic!("expected no match, got {:?}", r),
    }
}

#[test]
fn navigate_resets_on_invalid_input() {
    let root = tree(PREFIX_CONF);
    let mut buf = chars("zz");
    let (node, off) = navigate(&root, &mut buf);
    assert_eq!(as_menu(node).name, "root");
    assert_eq!(off, 0);
    assert!(buf.is_empty());
}

#[test]
fn repeat_returns_to_root_with_cleared_buffer() {
    let conf = r#"
        menu root {
            a: cmd {
                set repeat
                "true"
            }
        }
    "#;
    let root = tree(conf);
    let mut buf = chars("a");
    let (node, off) = follow_path(&root, &buf, 0);
    let c = as_command(node.unwrap());
    assert_eq!(off, 1);

    // the command carries Repeat: the session continues at the root menu
    // with an empty buffer
    assert!(session_after_command(c, &mut buf));
    assert!(buf.is_empty());
    let (back, off2) = navigate(&root, &mut buf);
    assert_eq!(as_menu(back).name, "root");
    assert_eq!(off2, 0);
}

#[test]
fn non_repeat_ends_session() {
    let root = tree(GIT_CONF);
    let mut buf = chars("gs");
    let (node, _) = follow_path(&root, &buf, 0);
    let c = as_command(node.unwrap());
    assert!(!session_after_command(c, &mut buf));
    assert_eq!(buf, chars("gs"));
}

#[test]
fn backspace_and_escape() {
    let mut buf = chars("ab");
    assert!(!apply_key(&mut buf, KeyEvent::Backspace));
    assert_eq!(buf, chars("a"));
    assert!(!apply_key(&mut buf, KeyEvent::Backspace));
    assert!(buf.is_empty());
    assert!(!apply_key(&mut buf, KeyEvent::Backspace));
    assert!(buf.is_empty());
    assert!(!apply_key(&mut buf, KeyEvent::Other));
    assert!(buf.is_empty());
    assert!(apply_key(&mut buf, KeyEvent::Escape));
    assert!(buf.is_empty());
}

#[test]
fn multi_char_keys_across_menus() {
    let conf = r#"
        menu root {
            gco: sub
        }

        menu sub {
            mm: "make"
        }
    "#;
    let root = tree(conf);

    // a partial key path of the submenu stays pending at the submenu,
    // with the offset at the committed boundary
    let buf = chars("gcom");
    let (node, off) = follow_path(&root, &buf, 0);
    assert_eq!(as_menu(node.unwrap()).name, "sub");
    assert_eq!(off, 3);

    let buf = chars("gcomm");
    let (node, off) = follow_path(&root, &buf, 0);
    assert_eq!(off, 5);
    assert_eq!(as_command(node.unwrap()).display_string(), "\"make\"");
}

#[test]
fn history_lines_round_trip() {
    assert_eq!(split_lines(""), Vec::<String>::new());
    assert_eq!(split_lines("one"), vec!["one"]);
    assert_eq!(split_lines("one\ntwo\n"), vec!["one", "two"]);
    assert_eq!(split_lines("one\r\ntwo\r\n"), vec!["one", "two"]);
    assert_eq!(split_lines("a\n\nb"), vec!["a", "", "b"]);

    let hist = vec!["first".to_string(), "second".to_string()];
    let joined = join_lines(&hist);
    assert_eq!(joined, "first\nsecond");
    assert_eq!(split_lines(&joined), hist);
}

#[test]
fn render_key_column() {
    let conf = parse(PREFIX_CONF).unwrap();
    // longest key path is "ab": the key column is one wider
    assert_eq!(keysection_len(&conf.menu), 3);

    assert_eq!(consumed_prefix_len(&chars("ab"), &chars("a")), Some(1));
    assert_eq!(consumed_prefix_len(&chars("ab"), &chars("")), Some(0));
    assert_eq!(consumed_prefix_len(&chars("ab"), &chars("b")), None);
    assert_eq!(consumed_prefix_len(&chars("a"), &chars("ab")), None);
}
