//! The incremental key-path resolver and the invocation planner.
//!
//! `find_submenus_for` compares one menu's key paths against the unconsumed
//! suffix of the input buffer; `follow_path` drives it from the tree root.
//! The outcome of a walk is: an exact node, "incomplete" (more characters
//! needed), or "invalid" (every entry eliminated).

use vstd::prelude::*;

use crate::parser::{Command, Menu, MenuV, Node, NodeV};
use crate::parser::{lemma_entries_view, menu_v_wf, node_v_wf, node_view};
use crate::scan::{find_char, lemma_find_char_at, lemma_find_char_range, spec_find_char};
use crate::text::{chars_of, push_char, string_from_range};

verus! {

// ---------------------------------------------------------------------------
// What it means for an entry to match
// ---------------------------------------------------------------------------
/// `p` is a prefix of `s`.
pub open spec fn is_prefix(p: Seq<char>, s: Seq<char>) -> bool {
    p.len() <= s.len() && p == s.take(p.len() as int)
}

/// Entry `i` wins an exact match against the unconsumed input `s`: its key
/// path is a non-empty prefix of `s`, no other matching entry has a shorter
/// key path (an earlier scan position), and among equally long matches the
/// leftmost entry wins.
pub open spec fn exact_at(entries: Seq<(Seq<char>, NodeV)>, s: Seq<char>, i: int) -> bool {
    &&& 0 <= i < entries.len()
    &&& entries[i].0.len() > 0
    &&& is_prefix(entries[i].0, s)
    &&& forall|j: int|
        0 <= j < entries.len() && (#[trigger] entries[j]).0.len() > 0 && is_prefix(entries[j].0, s)
            ==> entries[i].0.len() <= entries[j].0.len()
    &&& forall|j: int|
        0 <= j < entries.len() && (#[trigger] entries[j]).0.len() > 0 && is_prefix(entries[j].0, s)
            && entries[j].0.len() == entries[i].0.len() ==> i <= j
}

pub open spec fn has_exact(entries: Seq<(Seq<char>, NodeV)>, s: Seq<char>) -> bool {
    exists|i: int| exact_at(entries, s, i)
}

pub open spec fn exact_index(entries: Seq<(Seq<char>, NodeV)>, s: Seq<char>) -> int {
    choose|i: int| exact_at(entries, s, i)
}

/// At most one entry can win an exact match.
pub proof fn lemma_exact_unique(entries: Seq<(Seq<char>, NodeV)>, s: Seq<char>, i: int, j: int)
    requires
        exact_at(entries, s, i),
        exact_at(entries, s, j),
    ensures
        i == j,
{
}

/// Entry key `k` is still alive after consuming all of `s`: it agrees with
/// `s` so far but needs more characters.
pub open spec fn entry_alive(k: Seq<char>, s: Seq<char>) -> bool {
    k.len() > s.len() && k.take(s.len() as int) == s
}

pub open spec fn any_alive(entries: Seq<(Seq<char>, NodeV)>, s: Seq<char>) -> bool {
    exists|i: int| 0 <= i < entries.len() && entry_alive((#[trigger] entries[i]).0, s)
}

/// The outcome of matching one menu against the unconsumed input: an exact
/// match (entry index and consumed key length), an ambiguous pending state,
/// or elimination of every entry.
pub enum FindV {
    Exact(int, int),
    Incomplete,
    Invalid,
}

/// The matching outcome for entry list `entries` against unconsumed input `s`.
pub open spec fn spec_find(entries: Seq<(Seq<char>, NodeV)>, s: Seq<char>) -> FindV {
    if has_exact(entries, s) {
        FindV::Exact(exact_index(entries, s), entries[exact_index(entries, s)].0.len() as int)
    } else if any_alive(entries, s) {
        FindV::Incomplete
    } else {
        FindV::Invalid
    }
}

/// The outcome of walking the tree from `n` with the buffer `input`, starting
/// at the consumed offset `pos`: the node reached (`None` when the input is
/// invalid) and the new consumed offset.
pub open spec fn spec_follow(n: NodeV, input: Seq<char>, pos: int) -> (Option<NodeV>, int)
    decreases input.len() - pos,
    when 0 <= pos <= input.len()
{
    match n {
        NodeV::Command(_) => (Option::Some(n), pos),
        NodeV::Menu(m) => {
            let s = input.subrange(pos, input.len() as int);
            match spec_find(m.entries, s) {
                FindV::Exact(i, klen) => spec_follow(m.entries[i].1, input, pos + klen),
                FindV::Incomplete => (Option::Some(n), pos),
                FindV::Invalid => (Option::None, 0),
            }
        },
    }
}

// ---------------------------------------------------------------------------
// Laws of incremental matching
// ---------------------------------------------------------------------------
/// A prefix of the unconsumed input stays a prefix when more characters are
/// typed.
pub proof fn lemma_prefix_extension(k: Seq<char>, s: Seq<char>, ext: Seq<char>)
    requires
        is_prefix(k, s),
    ensures
        is_prefix(k, s + ext),
{
    assert((s + ext).take(k.len() as int) =~= s.take(k.len() as int));
}

/// An exact match is stable under extending the input: the same entry still
/// wins with the same consumed length.
pub proof fn lemma_exact_extension(
    entries: Seq<(Seq<char>, NodeV)>,
    s: Seq<char>,
    ext: Seq<char>,
    i: int,
)
    requires
        exact_at(entries, s, i),
    ensures
        exact_at(entries, s + ext, i),
{
    lemma_prefix_extension(entries[i].0, s, ext);
    assert forall|j: int|
        0 <= j < entries.len() && (#[trigger] entries[j]).0.len() > 0 && is_prefix(
            entries[j].0,
            s + ext,
        ) implies entries[i].0.len() <= entries[j].0.len() && (entries[j].0.len()
        == entries[i].0.len() ==> i <= j) by {
        if entries[j].0.len() <= s.len() {
            assert((s + ext).take(entries[j].0.len() as int) =~= s.take(
                entries[j].0.len() as int,
            ));
            assert(is_prefix(entries[j].0, s));
        } else {
            assert(entries[i].0.len() <= s.len());
        }
    }
}

/// If some entry's key path is a non-empty prefix of the input, an exact
/// winner exists.
pub proof fn lemma_prefix_implies_has_exact(
    entries: Seq<(Seq<char>, NodeV)>,
    s: Seq<char>,
    i: int,
)
    requires
        0 <= i < entries.len(),
        entries[i].0.len() > 0,
        is_prefix(entries[i].0, s),
    ensures
        has_exact(entries, s),
    decreases entries[i].0.len(), i,
{
    if exact_at(entries, s, i) {
    } else {
        // some other matching entry beats `i`: it is shorter, or equally
        // long and further left; recurse on it
        let j = choose|j: int|
            0 <= j < entries.len() && (#[trigger] entries[j]).0.len() > 0 && is_prefix(
                entries[j].0,
                s,
            ) && (entries[j].0.len() < entries[i].0.len() || (entries[j].0.len()
                == entries[i].0.len() && j < i));
        lemma_prefix_implies_has_exact(entries, s, j);
    }
}

/// Monotonic elimination: once every entry of a menu is eliminated by a
/// buffer, appending more characters cannot revive any entry — the buffer
/// stays invalid.
pub proof fn lemma_invalid_extension(entries: Seq<(Seq<char>, NodeV)>, s: Seq<char>, ext: Seq<char>)
    requires
        spec_find(entries, s) is Invalid,
    ensures
        spec_find(entries, s + ext) is Invalid,
{
    assert forall|i: int|
        0 <= i < entries.len() implies !((#[trigger] entries[i]).0.len() > 0 && is_prefix(
        entries[i].0,
        s + ext,
    )) by {
        if entries[i].0.len() > 0 && is_prefix(entries[i].0, s + ext) {
            if entries[i].0.len() <= s.len() {
                assert((s + ext).take(entries[i].0.len() as int) =~= s.take(
                    entries[i].0.len() as int,
                ));
                lemma_prefix_implies_has_exact(entries, s, i);
            } else {
                assert(entries[i].0.take(s.len() as int) =~= (s + ext).take(s.len() as int));
                assert((s + ext).take(s.len() as int) =~= s);
                assert(entry_alive(entries[i].0, s));
            }
        }
    }
    if has_exact(entries, s + ext) {
        let i = exact_index(entries, s + ext);
        assert(exact_at(entries, s + ext, i));
    }
    assert forall|i: int|
        0 <= i < entries.len() implies !entry_alive((#[trigger] entries[i]).0, s + ext) by {
        if entry_alive(entries[i].0, s + ext) {
            assert(entries[i].0.take(s.len() as int) =~= (s + ext).take(s.len() as int));
            assert((s + ext).take(s.len() as int) =~= s);
            assert(entry_alive(entries[i].0, s));
        }
    }
}

/// Incremental matching is order-independent. Walking the tree with a buffer
/// and then extending the buffer gives the same outcome as walking with the
/// extended buffer from the start:
/// - a walk that already reached a command keeps reaching it;
/// - a walk that stopped pending at a menu resumes from that menu and its
///   offset;
/// - a walk that was invalid stays invalid whatever is appended.
pub proof fn lemma_follow_extension(n: NodeV, input: Seq<char>, ext: Seq<char>, pos: int)
    requires
        node_v_wf(n),
        0 <= pos <= input.len(),
    ensures
        ({
            let (stop, p) = spec_follow(n, input, pos);
            match stop {
                Option::Some(found) => if found is Command {
                    spec_follow(n, input + ext, pos) == (stop, p)
                } else {
                    spec_follow(n, input + ext, pos) == spec_follow(found, input + ext, p)
                },
                Option::None => spec_follow(n, input + ext, pos) == (
                    Option::<NodeV>::None,
                    0int,
                ),
            }
        }),
    decreases input.len() - pos,
{
    match n {
        NodeV::Command(_) => {},
        NodeV::Menu(m) => {
            let s = input.subrange(pos, input.len() as int);
            let s2 = (input + ext).subrange(pos, (input + ext).len() as int);
            assert(s2 =~= s + ext);
            match spec_find(m.entries, s) {
                FindV::Exact(i, klen) => {
                    assert(exact_at(m.entries, s, i));
                    lemma_exact_extension(m.entries, s, ext, i);
                    lemma_exact_unique(m.entries, s + ext, exact_index(m.entries, s + ext), i);
                    assert(spec_find(m.entries, s2) == FindV::Exact(i, klen));
                    assert(node_v_wf(m.entries[i].1));
                    lemma_follow_extension(m.entries[i].1, input, ext, pos + klen);
                },
                FindV::Incomplete => {},
                FindV::Invalid => {
                    lemma_invalid_extension(m.entries, s, ext);
                },
            }
        },
    }
}

// ---------------------------------------------------------------------------
// The executable resolver
// ---------------------------------------------------------------------------
/// Result of matching one menu against the input buffer: `Exact(index,
/// new_offset)` names the winning entry and the offset after its key path;
/// `Incomplete(offset)` keeps the offset unchanged and waits for more
/// characters; `NoMatch` means every entry was eliminated.
#[derive(Debug, Clone, Copy)]
pub enum Submenus {
    Exact(usize, usize),
    Incomplete(usize),
    NoMatch,
}

/// Whether the first `m` characters of `key` equal `input[pos..pos + m]`.
fn keys_match_prefix(key: &Vec<char>, input: &Vec<char>, pos: usize, m: usize) -> (b: bool)
    requires
        m <= key@.len(),
        pos + m <= input@.len(),
    ensures
        b <==> key@.take(m as int) == input@.subrange(pos as int, (pos + m) as int),
{
    let ilen: usize = input.len();
    let mut j: usize = 0;
    while j < m
        invariant
            j <= m,
            m <= key@.len(),
            ilen == input@.len(),
            pos + m <= ilen,
            forall|l: int| 0 <= l < j ==> key@[l] == input@[pos + l],
        decreases m - j,
    {
        if key[j] != input[pos + j] {
            proof {
                assert(key@.take(m as int)[j as int] != input@.subrange(
                    pos as int,
                    (pos + m) as int,
                )[j as int]);
            }
            return false;
        }
        j = j + 1;
    }
    proof {
        assert(key@.take(m as int) =~= input@.subrange(pos as int, (pos + m) as int));
    }
    true
}

/// Matches every entry of `menu` simultaneously against the unconsumed input
/// `input_chars[pos..]` and reports the first exact match, a pending state,
/// or the elimination of all entries.
pub fn find_submenus_for(menu: &Menu, input_chars: &Vec<char>, pos: usize) -> (r: Submenus)
    requires
        menu_v_wf(menu@),
        pos <= input_chars@.len(),
    ensures
        ({
            let entries = menu@.entries;
            let s = input_chars@.subrange(pos as int, input_chars@.len() as int);
            match r {
                Submenus::Exact(idx, new_pos) => new_pos == pos + entries[idx as int].0.len()
                    && spec_find(entries, s) == FindV::Exact(
                    idx as int,
                    entries[idx as int].0.len() as int,
                ),
                Submenus::Incomplete(p) => p == pos && spec_find(entries, s) is Incomplete,
                Submenus::NoMatch => spec_find(entries, s) is Invalid,
            }
        }),
{
    proof {
        lemma_entries_view(menu.entries@);
    }
    let ghost entries = menu@.entries;
    let ghost s = input_chars@.subrange(pos as int, input_chars@.len() as int);
    let suffix_len: usize = input_chars.len() - pos;

    let mut best_idx: usize = 0;
    let mut best_len: usize = 0;
    let mut found: bool = false;
    let mut alive: bool = false;

    let n = menu.entries.len();
    let mut e: usize = 0;
    while e < n
        invariant
            menu_v_wf(menu@),
            pos <= input_chars@.len(),
            entries == menu@.entries,
            s == input_chars@.subrange(pos as int, input_chars@.len() as int),
            suffix_len == input_chars@.len() - pos,
            n == menu.entries@.len(),
            entries.len() == n,
            forall|i: int|
                0 <= i < n ==> #[trigger] entries[i] == (
                menu.entries@[i].0@,
                node_view(menu.entries@[i].1),
                ),
            e <= n,
            alive <==> exists|i: int| 0 <= i < e && entry_alive((#[trigger] entries[i]).0, s),
            !found ==> forall|i: int|
                0 <= i < e ==> !((#[trigger] entries[i]).0.len() > 0 && is_prefix(
                    entries[i].0,
                    s,
                )),
            found ==> {
                &&& best_idx < e
                &&& entries[best_idx as int].0.len() == best_len
                &&& best_len > 0
                &&& is_prefix(entries[best_idx as int].0, s)
                &&& forall|i: int|
                    0 <= i < e && (#[trigger] entries[i]).0.len() > 0 && is_prefix(entries[i].0, s)
                        ==> best_len <= entries[i].0.len()
                &&& forall|i: int|
                    0 <= i < e && (#[trigger] entries[i]).0.len() > 0 && is_prefix(entries[i].0, s)
                        && entries[i].0.len() == best_len ==> best_idx <= i
            },
        decreases n - e,
    {
        let key = &menu.entries[e].0;
        proof {
            assert(entries[e as int].0 == key@);
            assert(s.len() == suffix_len);
        }
        let klen = key.len();
        if klen <= suffix_len {
            // candidate for an exact match: compare the whole key path
            let matched = keys_match_prefix(key, input_chars, pos, klen);
            proof {
                assert(key@.take(klen as int) =~= key@);
                assert(s.take(klen as int) =~= input_chars@.subrange(
                    pos as int,
                    (pos + klen) as int,
                ));
                if matched {
                    assert(is_prefix(key@, s));
                } else {
                    assert(!is_prefix(key@, s));
                }
                assert(!entry_alive(key@, s));
            }
            proof {
                assert(entries[e as int].0.len() > 0);
            }
            if matched {
                if !found || klen < best_len {
                    best_idx = e;
                    best_len = klen;
                    found = true;
                }
            }
        } else {
            // the key path is longer than the remaining input: the entry is
            // alive exactly when it matches all remaining characters
            let matched = keys_match_prefix(key, input_chars, pos, suffix_len);
            proof {
                assert(input_chars@.subrange(pos as int, (pos + suffix_len) as int) =~= s);
                assert(s.take(s.len() as int) =~= s);
                if matched {
                    assert(entry_alive(key@, s));
                } else {
                    assert(!entry_alive(key@, s));
                }
                assert(!is_prefix(key@, s));
            }
            if matched {
                alive = true;
            }
        }
        e = e + 1;
    }

    if found {
        proof {
            assert(exact_at(entries, s, best_idx as int));
            lemma_exact_unique(entries, s, exact_index(entries, s), best_idx as int);
        }
        Submenus::Exact(best_idx, pos + best_len)
    } else if alive {
        proof {
            assert(forall|i: int| 0 <= i < entries.len() ==> !exact_at(entries, s, i));
        }
        Submenus::Incomplete(pos)
    } else {
        proof {
            assert(forall|i: int| 0 <= i < entries.len() ==> !exact_at(entries, s, i));
        }
        Submenus::NoMatch
    }
}

/// Walks the tree from `node`, repeatedly matching the unconsumed input:
/// descends on every exact match, stops with the current node on a pending
/// match, and reports `None` (offset 0) when the input is invalid.
pub fn follow_path<'a>(node: &'a Node, input_chars: &Vec<char>, pos: usize) -> (r: (
    Option<&'a Node>,
    usize,
))
    requires
        node_v_wf(node_view(*node)),
        pos <= input_chars@.len(),
    ensures
        ({
            let (sn, sp) = spec_follow(node_view(*node), input_chars@, pos as int);
            &&& match r.0 {
                Option::Some(found) => sn == Option::Some(node_view(*found)),
                Option::None => sn is None,
            }
            &&& r.1 == sp
        }),
    decreases input_chars@.len() - pos,
{
    match node {
        Node::Command(_) => (Some(node), pos),
        Node::Menu(m) => {
            proof {
                lemma_entries_view(m.entries@);
            }
            match find_submenus_for(m, input_chars, pos) {
                Submenus::Exact(idx, new_pos) => {
                    let next_node = &m.entries[idx].1;
                    follow_path(next_node, input_chars, new_pos)
                },
                Submenus::Incomplete(p) => (Some(node), p),
                Submenus::NoMatch => (None, 0),
            }
        },
    }
}

// ---------------------------------------------------------------------------
// Session-level navigation
// ---------------------------------------------------------------------------
/// One navigation pass over the whole accumulated buffer: walks the tree from
/// `root`; on an invalid buffer clears it and resets to the root menu
/// (offset 0). Returns the current node and the consumed offset.
pub fn navigate<'a>(root: &'a Node, input_chars: &mut Vec<char>) -> (r: (&'a Node, usize))
    requires
        node_v_wf(node_view(*root)),
    ensures
        ({
            let (stop, p) = spec_follow(node_view(*root), old(input_chars)@, 0);
            match stop {
                Option::Some(found) => node_view(*r.0) == found && r.1 == p
                    && final(input_chars)@ == old(input_chars)@,
                Option::None => node_view(*r.0) == node_view(*root) && r.1 == 0
                    && final(input_chars)@ == Seq::<char>::empty(),
            }
        }),
{
    let (found, off) = follow_path(root, &*input_chars, 0);
    match found {
        Some(n) => (n, off),
        None => {
            input_chars.clear();
            (root, 0)
        },
    }
}

/// One unit of keyboard input, as the interactive loop hands it to the
/// buffer.
#[derive(Debug, Clone, Copy, PartialEq, Eq, Structural)]
pub enum KeyEvent {
    /// A printable character: appended to the buffer.
    Char(char),
    /// Removes the last buffered character, if any.
    Backspace,
    /// Ends the session.
    Escape,
    /// Any other key: ignored.
    Other,
}

/// Applies one key event to the input buffer. Returns true when the session
/// should end (Escape).
pub fn apply_key(input_chars: &mut Vec<char>, key: KeyEvent) -> (exit: bool)
    ensures
        match key {
            KeyEvent::Char(c) => !exit && final(input_chars)@ == old(input_chars)@.push(c),
            KeyEvent::Backspace => !exit && final(input_chars)@ == (if old(input_chars)@.len() > 0 {
                old(input_chars)@.drop_last()
            } else {
                old(input_chars)@
            }),
            KeyEvent::Escape => exit && final(input_chars)@ == old(input_chars)@,
            KeyEvent::Other => !exit && final(input_chars)@ == old(input_chars)@,
        },
{
    match key {
        KeyEvent::Char(c) => {
            input_chars.push(c);
            false
        },
        KeyEvent::Backspace => {
            let _popped = input_chars.pop();
            proof {
                if old(input_chars)@.len() > 0 {
                    assert(input_chars@ =~= old(input_chars)@.drop_last());
                }
            }
            false
        },
        KeyEvent::Escape => true,
        KeyEvent::Other => false,
    }
}

// ---------------------------------------------------------------------------
// Render support
// ---------------------------------------------------------------------------
/// The longest key path of a menu.
pub open spec fn spec_max_key_len(entries: Seq<(Seq<char>, NodeV)>) -> nat
    decreases entries.len(),
{
    if entries.len() == 0 {
        0
    } else {
        let m = spec_max_key_len(entries.drop_last());
        if entries.last().0.len() > m {
            entries.last().0.len()
        } else {
            m
        }
    }
}

/// The width of the key column in a rendered menu: one more than the longest
/// key path (saturating).
pub fn keysection_len(menu: &Menu) -> (r: usize)
    requires
        menu.entries@.len() > 0,
    ensures
        ({
            let m = spec_max_key_len(menu@.entries);
            if m < usize::MAX {
                r == m + 1
            } else {
                r == m
            }
        }),
{
    proof {
        lemma_entries_view(menu.entries@);
    }
    let ghost ev = menu@.entries;
    let mut m: usize = 0;
    let mut i: usize = 0;
    while i < menu.entries.len()
        invariant
            i <= menu.entries@.len(),
            ev == menu@.entries,
            ev.len() == menu.entries@.len(),
            forall|j: int|
                0 <= j < ev.len() ==> #[trigger] ev[j] == (
                menu.entries@[j].0@,
                crate::parser::node_view(menu.entries@[j].1),
                ),
            m == spec_max_key_len(ev.take(i as int)),
        decreases menu.entries@.len() - i,
    {
        proof {
            assert(ev.take((i + 1) as int).drop_last() =~= ev.take(i as int));
            assert(ev.take((i + 1) as int).last() == ev[i as int]);
        }
        let kl = menu.entries[i].0.len();
        if kl > m {
            m = kl;
        }
        i = i + 1;
    }
    proof {
        assert(ev.take(ev.len() as int) =~= ev);
    }
    if m < usize::MAX {
        m + 1
    } else {
        m
    }
}

/// How many leading characters of `keys` the user has already typed towards
/// this entry: the length of `typed` when `typed` is a prefix of `keys`
/// (those characters are highlighted), nothing otherwise.
pub fn consumed_prefix_len(keys: &Vec<char>, typed: &Vec<char>) -> (r: Option<usize>)
    ensures
        match r {
            Option::Some(n) => is_prefix(typed@, keys@) && n == typed@.len(),
            Option::None => !is_prefix(typed@, keys@),
        },
{
    if typed.len() > keys.len() {
        return None;
    }
    if keys_match_prefix(typed, keys, 0, typed.len()) {
        proof {
            assert(typed@.take(typed@.len() as int) =~= typed@);
            assert(keys@.subrange(0, typed@.len() as int) =~= keys@.take(typed@.len() as int));
        }
        Some(typed.len())
    } else {
        proof {
            assert(typed@.take(typed@.len() as int) =~= typed@);
            assert(keys@.subrange(0, typed@.len() as int) =~= keys@.take(typed@.len() as int));
        }
        None
    }
}

/// After a resolved command has run: a `Repeat` command returns control to
/// the root menu with the input buffer cleared; any other command ends the
/// session. Returns true when the menu loop continues.
pub fn session_after_command(cmd: &Command, input_chars: &mut Vec<char>) -> (cont: bool)
    ensures
        cont == cmd.settings@.contains(crate::parser::CommandSetting::Repeat),
        cont ==> final(input_chars)@ == Seq::<char>::empty(),
        !cont ==> final(input_chars)@ == old(input_chars)@,
{
    if cmd.repeat() {
        input_chars.clear();
        true
    } else {
        false
    }
}

// ---------------------------------------------------------------------------
// The history file's line format
// ---------------------------------------------------------------------------
/// A line with a trailing carriage return stripped.
pub open spec fn strip_cr(l: Seq<char>) -> Seq<char> {
    if l.len() > 0 && l.last() == '\r' {
        l.drop_last()
    } else {
        l
    }
}

/// The lines of a history file's text: split at every newline, each line's
/// trailing carriage return stripped, no empty line after a trailing
/// newline.
pub open spec fn spec_split_lines(s: Seq<char>) -> Seq<Seq<char>>
    decreases s.len(),
{
    if s.len() == 0 {
        Seq::empty()
    } else {
        match spec_find_char(s, 0, '\n') {
            Option::None => seq![strip_cr(s)],
            Option::Some(i) => {
                proof {
                    lemma_find_char_range(s, 0, '\n');
                }
                seq![strip_cr(s.take(i))] + spec_split_lines(s.subrange(i + 1, s.len() as int))
            },
        }
    }
}

/// The text of a history file holding `ls`: the lines joined by newlines.
pub open spec fn spec_join_lines(ls: Seq<Seq<char>>) -> Seq<char>
    decreases ls.len(),
{
    if ls.len() == 0 {
        Seq::empty()
    } else if ls.len() == 1 {
        ls[0]
    } else {
        spec_join_lines(ls.drop_last()) + seq!['\n'] + ls.last()
    }
}

/// Splits a history file's text into its lines.
pub fn split_lines(s: &str) -> (r: Vec<String>)
    ensures
        r.deep_view() == spec_split_lines(s@),
{
    let chars = chars_of(s);
    let n = chars.len();
    let mut out: Vec<String> = Vec::new();
    let mut p: usize = 0;
    proof {
        assert(out.deep_view() =~= Seq::<Seq<char>>::empty());
        assert(s@.subrange(0, n as int) =~= s@);
        assert(Seq::<Seq<char>>::empty() + spec_split_lines(s@) =~= spec_split_lines(s@));
    }
    while p < n
        invariant
            p <= n,
            n == chars@.len(),
            chars@ == s@,
            spec_split_lines(s@) == out.deep_view() + spec_split_lines(
                s@.subrange(p as int, n as int),
            ),
        decreases n - p,
    {
        let ghost u = s@.subrange(p as int, n as int);
        let ghost d0 = out.deep_view();
        match find_char(&chars, p, '\n') {
            Some(i) => {
                proof {
                    lemma_find_char_range(s@, p as int, '\n');
                }
                let e = if i > p && chars[i - 1] == '\r' {
                    i - 1
                } else {
                    i
                };
                let line = string_from_range(&chars, p, e);
                out.push(line);
                proof {
                    assert forall|j: int| 0 <= j < i - p implies u[j] != '\n' by {
                        assert(u[j] == s@[p + j]);
                    }
                    assert(u[(i - p) as int] == '\n');
                    lemma_find_char_at(u, 0, '\n', (i - p) as int);
                    assert(u.take((i - p) as int) =~= s@.subrange(p as int, i as int));
                    assert(strip_cr(u.take((i - p) as int)) =~= s@.subrange(p as int, e as int));
                    assert(u.subrange((i - p + 1) as int, u.len() as int) =~= s@.subrange(
                        (i + 1) as int,
                        n as int,
                    ));
                    assert(out.deep_view() =~= d0.push(s@.subrange(p as int, e as int)));
                    assert(d0 + (seq![strip_cr(u.take((i - p) as int))] + spec_split_lines(
                        s@.subrange((i + 1) as int, n as int),
                    )) =~= out.deep_view() + spec_split_lines(s@.subrange((i + 1) as int, n as int)));
                }
                p = i + 1;
            },
            None => {
                proof {
                    lemma_find_char_range(s@, p as int, '\n');
                }
                let e = if n > p && chars[n - 1] == '\r' {
                    n - 1
                } else {
                    n
                };
                let line = string_from_range(&chars, p, e);
                out.push(line);
                proof {
                    assert forall|j: int| 0 <= j < u.len() implies u[j] != '\n' by {
                        assert(u[j] == s@[p + j]);
                    }
                    lemma_find_char_at(u, 0, '\n', u.len() as int);
                    assert(strip_cr(u) =~= s@.subrange(p as int, e as int));
                    assert(out.deep_view() =~= d0.push(s@.subrange(p as int, e as int)));
                    assert(spec_split_lines(s@.subrange(n as int, n as int))
                        =~= Seq::<Seq<char>>::empty());
                    assert(d0 + seq![strip_cr(u)] =~= out.deep_view() + Seq::<
                        Seq<char>,
                    >::empty());
                }
                p = n;
            },
        }
    }
    proof {
        assert(spec_split_lines(s@.subrange(n as int, n as int)) =~= Seq::<Seq<char>>::empty());
        assert(out.deep_view() + Seq::<Seq<char>>::empty() =~= out.deep_view());
    }
    out
}

/// Joins history lines into the file's text, newline-separated.
pub fn join_lines(lines: &Vec<String>) -> (r: String)
    ensures
        r@ == spec_join_lines(lines.deep_view()),
{
    let ghost lv = lines.deep_view();
    let mut out = String::new();
    let mut i: usize = 0;
    while i < lines.len()
        invariant
            i <= lines@.len(),
            lv == lines.deep_view(),
            lv.len() == lines@.len(),
            out@ == spec_join_lines(lv.take(i as int)),
        decreases lines@.len() - i,
    {
        if i > 0 {
            push_char(&mut out, '\n');
        }
        out.append(lines[i].as_str());
        proof {
            assert(lv.take((i + 1) as int).drop_last() =~= lv.take(i as int));
            assert(lv.take((i + 1) as int).last() == lv[i as int]);
            assert(lv[i as int] == lines@[i as int]@);
            if i == 0 {
                assert(out@ =~= spec_join_lines(lv.take(1int)));
            } else {
                assert(out@ =~= spec_join_lines(lv.take((i + 1) as int)));
            }
        }
        i = i + 1;
    }
    proof {
        assert(lv.take(lv.len() as int) =~= lv);
    }
    out
}

} // verus!
