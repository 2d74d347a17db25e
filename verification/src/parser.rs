//! The configuration compiler: data model of the menu/command tree, the
//! grammar parser that turns declarative text into raw declarations, the
//! materializer that resolves symbolic menu references into a strict tree
//! (rejecting cycles, dangling names and duplicate key paths), and the
//! expression resolver that concatenates snippet references into final
//! strings while detecting reference cycles.

use vstd::prelude::*;

use crate::scan::{
    copy_range, ident_start_char, is_ident_start_char, is_word_char, lemma_ident_end_range,
    lemma_scan_string_advances, lemma_skip_inline_ws_range, lemma_skip_ws_range,
    lemma_key_end_range, lemma_word_end_range, range_equals_str, scan_ident, scan_keys,
    scan_string, scan_word, skip_inline_ws, skip_ws, spec_ident_end, spec_scan_ident,
    spec_scan_keys, spec_scan_string, spec_skip_inline_ws, spec_skip_ws, spec_word_end, word_char,
};
use crate::text::{chars_of, string_from_chars, string_from_range};

verus! {

// ---------------------------------------------------------------------------
// The compiled tree
// ---------------------------------------------------------------------------
/// A node of the compiled tree: an inner menu or a leaf command.
#[derive(Debug, PartialEq)]
pub enum Node {
    Menu(Menu),
    Command(Command),
}

/// A menu: a mapping from key paths (non-empty, pairwise distinct character
/// sequences) to child nodes.
#[derive(Debug, PartialEq)]
pub struct Menu {
    pub name: String,
    pub display_name: Option<String>,
    pub entries: Vec<(Vec<char>, Node)>,
}

/// A leaf command: an unresolved body expression plus invocation metadata.
#[derive(Debug, PartialEq)]
pub struct Command {
    pub exec_str: StringExpr,
    pub settings: Vec<CommandSetting>,
    pub name: Option<String>,
    pub shell: Option<ShellDef>,
    pub env_vars: Vec<VarDef>,
    pub toggle_echo_setting: bool,
}

/// Per-command settings.
#[derive(Debug, PartialEq, Eq, Clone, Copy, Structural)]
pub enum CommandSetting {
    /// After execution, return to the menu instead of terminating.
    Repeat,
    /// A non-zero exit status of the invoked process is not an error.
    IgnoreResult,
}

/// A shell program together with its fixed argument prefix.
#[derive(Debug, PartialEq)]
pub struct ShellDef {
    pub name: String,
    pub args: Vec<String>,
}

/// A variable specification: name and optional default prompt content.
#[derive(Debug, PartialEq)]
pub struct VarDef {
    pub name: String,
    pub value: Option<String>,
}

/// One element of a string expression: a snippet reference or a literal.
#[derive(Debug, PartialEq)]
pub enum StringExprElem {
    Symbol(String),
    String(String),
}

/// An ordered sequence of literals and snippet references; resolving it
/// concatenates the resolved value of each element in order.
#[derive(Debug, PartialEq)]
pub struct StringExpr(pub Vec<StringExprElem>);

/// The named reusable text fragments, keyed by snippet name (unique keys).
#[derive(Debug, PartialEq)]
pub struct SnippetTable {
    pub entries: Vec<(String, StringExpr)>,
}

/// Global settings from the leading settings block of the configuration.
#[derive(Debug, PartialEq)]
pub struct Settings {
    pub shell_def: Option<ShellDef>,
    pub echo_by_default: bool,
}

/// A fully compiled configuration.
#[derive(Debug)]
pub struct Config {
    pub menu: Menu,
    pub settings: Settings,
    pub snippet_table: SnippetTable,
}

// ---------------------------------------------------------------------------
// Mathematical views of the tree
// ---------------------------------------------------------------------------
pub enum StringExprElemV {
    Symbol(Seq<char>),
    Lit(Seq<char>),
}

pub struct ShellDefV {
    pub name: Seq<char>,
    pub args: Seq<Seq<char>>,
}

pub struct VarDefV {
    pub name: Seq<char>,
    pub value: Option<Seq<char>>,
}

pub struct CommandV {
    pub exec_str: Seq<StringExprElemV>,
    pub settings: Seq<CommandSetting>,
    pub name: Option<Seq<char>>,
    pub shell: Option<ShellDefV>,
    pub env_vars: Seq<VarDefV>,
    pub toggle_echo_setting: bool,
}

pub struct MenuV {
    pub name: Seq<char>,
    pub display_name: Option<Seq<char>>,
    pub entries: Seq<(Seq<char>, NodeV)>,
}

pub enum NodeV {
    Menu(MenuV),
    Command(CommandV),
}

pub open spec fn opt_string_view(o: Option<String>) -> Option<Seq<char>> {
    match o {
        Option::Some(s) => Option::Some(s@),
        Option::None => Option::None,
    }
}

impl View for StringExprElem {
    type V = StringExprElemV;

    open spec fn view(&self) -> StringExprElemV {
        match self {
            StringExprElem::Symbol(s) => StringExprElemV::Symbol(s@),
            StringExprElem::String(s) => StringExprElemV::Lit(s@),
        }
    }
}

impl View for StringExpr {
    type V = Seq<StringExprElemV>;

    open spec fn view(&self) -> Seq<StringExprElemV> {
        self.0@.map_values(|e: StringExprElem| e@)
    }
}

impl View for ShellDef {
    type V = ShellDefV;

    open spec fn view(&self) -> ShellDefV {
        ShellDefV { name: self.name@, args: self.args.deep_view() }
    }
}

impl View for VarDef {
    type V = VarDefV;

    open spec fn view(&self) -> VarDefV {
        VarDefV { name: self.name@, value: opt_string_view(self.value) }
    }
}

pub open spec fn opt_shell_view(o: Option<ShellDef>) -> Option<ShellDefV> {
    match o {
        Option::Some(s) => Option::Some(s@),
        Option::None => Option::None,
    }
}

impl View for Command {
    type V = CommandV;

    open spec fn view(&self) -> CommandV {
        CommandV {
            exec_str: self.exec_str@,
            settings: self.settings@,
            name: opt_string_view(self.name),
            shell: opt_shell_view(self.shell),
            env_vars: self.env_vars@.map_values(|v: VarDef| v@),
            toggle_echo_setting: self.toggle_echo_setting,
        }
    }
}

/// View of a menu's entry list, defined mutually with the view of a node.
pub open spec fn entries_view(es: Seq<(Vec<char>, Node)>) -> Seq<(Seq<char>, NodeV)>
    decreases es,
{
    if es.len() == 0 {
        Seq::empty()
    } else {
        entries_view(es.drop_last()).push((es.last().0@, node_view(es.last().1)))
    }
}

/// View of a menu, defined mutually with the view of a node.
pub open spec fn menu_view(m: Menu) -> MenuV
    decreases m,
{
    MenuV {
        name: m.name@,
        display_name: opt_string_view(m.display_name),
        entries: entries_view(m.entries@),
    }
}

pub open spec fn node_view(n: Node) -> NodeV
    decreases n,
{
    match n {
        Node::Menu(m) => NodeV::Menu(menu_view(m)),
        Node::Command(c) => NodeV::Command(c@),
    }
}

/// The entry-list view maps each entry to the pair of its key path's view
/// and its node's view.
pub proof fn lemma_entries_view(es: Seq<(Vec<char>, Node)>)
    ensures
        entries_view(es).len() == es.len(),
        forall|i: int|
            0 <= i < es.len() ==> #[trigger] entries_view(es)[i] == (
            es[i].0@,
            node_view(es[i].1),
            ),
    decreases es.len(),
{
    if es.len() > 0 {
        lemma_entries_view(es.drop_last());
    }
}

impl View for Menu {
    type V = MenuV;

    open spec fn view(&self) -> MenuV {
        menu_view(*self)
    }
}

impl View for Node {
    type V = NodeV;

    open spec fn view(&self) -> NodeV {
        node_view(*self)
    }
}

impl View for Settings {
    type V = (Option<ShellDefV>, bool);

    open spec fn view(&self) -> (Option<ShellDefV>, bool) {
        (opt_shell_view(self.shell_def), self.echo_by_default)
    }
}

impl View for SnippetTable {
    type V = Seq<(Seq<char>, Seq<StringExprElemV>)>;

    open spec fn view(&self) -> Seq<(Seq<char>, Seq<StringExprElemV>)> {
        self.entries@.map_values(|e: (String, StringExpr)| (e.0@, e.1@))
    }
}

// ---------------------------------------------------------------------------
// Well-formedness of the compiled tree
// ---------------------------------------------------------------------------
/// A well-formed menu view: all key paths are non-empty and pairwise
/// distinct, and all child menus are well-formed in turn.
pub open spec fn menu_v_wf(m: MenuV) -> bool
    decreases m,
{
    &&& forall|i: int| 0 <= i < m.entries.len() ==> (#[trigger] m.entries[i]).0.len() > 0
    &&& forall|i: int, j: int|
        0 <= i < j < m.entries.len() ==> (#[trigger] m.entries[i]).0 != (
        #[trigger] m.entries[j]).0
    &&& forall|i: int| 0 <= i < m.entries.len() ==> node_v_wf((#[trigger] m.entries[i]).1)
}

pub open spec fn node_v_wf(n: NodeV) -> bool
    decreases n,
{
    match n {
        NodeV::Menu(m) => menu_v_wf(m),
        NodeV::Command(_) => true,
    }
}

// ---------------------------------------------------------------------------
// Small verified accessors
// ---------------------------------------------------------------------------
impl Command {
    /// Whether the command carries the `Repeat` setting.
    pub fn repeat(&self) -> (r: bool)
        ensures
            r == self.settings@.contains(CommandSetting::Repeat),
    {
        let mut i: usize = 0;
        while i < self.settings.len()
            invariant
                i <= self.settings@.len(),
                forall|j: int| 0 <= j < i ==> self.settings@[j] != CommandSetting::Repeat,
            decreases self.settings@.len() - i,
        {
            if self.settings[i] == CommandSetting::Repeat {
                return true;
            }
            i = i + 1;
        }
        false
    }

    /// Whether the command carries the `IgnoreResult` setting.
    pub fn ignore_result(&self) -> (r: bool)
        ensures
            r == self.settings@.contains(CommandSetting::IgnoreResult),
    {
        let mut i: usize = 0;
        while i < self.settings.len()
            invariant
                i <= self.settings@.len(),
                forall|j: int| 0 <= j < i ==> self.settings@[j] != CommandSetting::IgnoreResult,
            decreases self.settings@.len() - i,
        {
            if self.settings[i] == CommandSetting::IgnoreResult {
                return true;
            }
            i = i + 1;
        }
        false
    }
}

/// Copies a vector of strings.
pub fn clone_string_vec(v: &Vec<String>) -> (r: Vec<String>)
    ensures
        r.deep_view() == v.deep_view(),
        r@.len() == v@.len(),
{
    let mut r: Vec<String> = Vec::new();
    let mut i: usize = 0;
    while i < v.len()
        invariant
            i <= v@.len(),
            r@.len() == i,
            forall|j: int| 0 <= j < i ==> (#[trigger] r@[j])@ == v@[j]@,
        decreases v@.len() - i,
    {
        r.push(v[i].clone());
        i = i + 1;
    }
    proof {
        assert(r.deep_view() =~= v.deep_view());
    }
    r
}

impl Clone for ShellDef {
    fn clone(&self) -> (r: Self)
        ensures
            r@ == self@,
    {
        let r = ShellDef { name: self.name.clone(), args: clone_string_vec(&self.args) };
        proof {
            assert(r@.args =~= self@.args);
        }
        r
    }
}

fn clone_opt_string(o: &Option<String>) -> (r: Option<String>)
    ensures
        r == *o,
{
    match o {
        Some(s) => Some(s.clone()),
        None => None,
    }
}

impl Clone for VarDef {
    fn clone(&self) -> (r: Self)
        ensures
            r == *self,
    {
        VarDef { name: self.name.clone(), value: clone_opt_string(&self.value) }
    }
}

impl Clone for StringExprElem {
    fn clone(&self) -> (r: Self)
        ensures
            r == *self,
    {
        match self {
            StringExprElem::Symbol(s) => StringExprElem::Symbol(s.clone()),
            StringExprElem::String(s) => StringExprElem::String(s.clone()),
        }
    }
}

impl Clone for StringExpr {
    fn clone(&self) -> (r: Self)
        ensures
            r@ == self@,
    {
        let mut elems: Vec<StringExprElem> = Vec::new();
        let mut i: usize = 0;
        while i < self.0.len()
            invariant
                i <= self.0@.len(),
                elems@.len() == i,
                forall|j: int| 0 <= j < i ==> elems@[j] == self.0@[j],
            decreases self.0@.len() - i,
        {
            elems.push(self.0[i].clone());
            i = i + 1;
        }
        proof {
            assert(elems@ =~= self.0@);
        }
        StringExpr(elems)
    }
}

/// Copies a vector of command settings.
pub fn clone_settings_vec(v: &Vec<CommandSetting>) -> (r: Vec<CommandSetting>)
    ensures
        r@ == v@,
{
    let mut r: Vec<CommandSetting> = Vec::new();
    let mut i: usize = 0;
    while i < v.len()
        invariant
            i <= v@.len(),
            r@.len() == i,
            forall|j: int| 0 <= j < i ==> r@[j] == v@[j],
        decreases v@.len() - i,
    {
        r.push(v[i]);
        i = i + 1;
    }
    proof {
        assert(r@ =~= v@);
    }
    r
}

/// Copies a vector of variable definitions.
pub fn clone_vardef_vec(v: &Vec<VarDef>) -> (r: Vec<VarDef>)
    ensures
        r@ == v@,
{
    let mut r: Vec<VarDef> = Vec::new();
    let mut i: usize = 0;
    while i < v.len()
        invariant
            i <= v@.len(),
            r@.len() == i,
            forall|j: int| 0 <= j < i ==> r@[j] == v@[j],
        decreases v@.len() - i,
    {
        r.push(v[i].clone());
        i = i + 1;
    }
    proof {
        assert(r@ =~= v@);
    }
    r
}

fn clone_opt_shell(o: &Option<ShellDef>) -> (r: Option<ShellDef>)
    ensures
        opt_shell_view(r) == opt_shell_view(*o),
{
    match o {
        Some(s) => Some(s.clone()),
        None => None,
    }
}

impl Clone for Command {
    fn clone(&self) -> (r: Self)
        ensures
            r@ == self@,
    {
        let r = Command {
            exec_str: self.exec_str.clone(),
            settings: clone_settings_vec(&self.settings),
            name: clone_opt_string(&self.name),
            shell: clone_opt_shell(&self.shell),
            env_vars: clone_vardef_vec(&self.env_vars),
            toggle_echo_setting: self.toggle_echo_setting,
        };
        proof {
            assert(r@.env_vars =~= self@.env_vars);
        }
        r
    }
}

impl Clone for Settings {
    fn clone(&self) -> (r: Self)
        ensures
            r@ == self@,
    {
        Settings {
            shell_def: clone_opt_shell(&self.shell_def),
            echo_by_default: self.echo_by_default,
        }
    }
}

impl ShellDef {
    /// The shell's fixed argument prefix extended with one final argument
    /// (the command text handed to the shell).
    pub fn args_with(&self, additional_arg: &str) -> (r: Vec<String>)
        ensures
            r.deep_view() == self.args.deep_view().push(additional_arg@),
    {
        let mut r = clone_string_vec(&self.args);
        r.push(additional_arg.to_owned());
        proof {
            assert(r.deep_view() =~= self.args.deep_view().push(additional_arg@));
        }
        r
    }
}

/// The default shell: `bash -euo pipefail -c`, chosen to fail fast on unset
/// variables, errors and pipeline failures.
pub open spec fn spec_default_shell() -> ShellDefV {
    ShellDefV { name: "bash"@, args: seq!["-euo"@, "pipefail"@, "-c"@] }
}

impl Default for ShellDef {
    /// The default shell: `bash -euo pipefail -c`.
    fn default() -> (r: Self)
        ensures
            r@ == spec_default_shell(),
    {
        let mut args: Vec<String> = Vec::new();
        args.push("-euo".to_owned());
        args.push("pipefail".to_owned());
        args.push("-c".to_owned());
        let r = ShellDef { name: "bash".to_owned(), args };
        proof {
            assert(r@.args =~= seq!["-euo"@, "pipefail"@, "-c"@]);
        }
        r
    }
}

// ---------------------------------------------------------------------------
// The snippet table
// ---------------------------------------------------------------------------
/// The table holds a snippet named `name`.
pub open spec fn table_has(t: Seq<(Seq<char>, Seq<StringExprElemV>)>, name: Seq<char>) -> bool {
    exists|i: int| 0 <= i < t.len() && (#[trigger] t[i]).0 == name
}

pub open spec fn table_index(t: Seq<(Seq<char>, Seq<StringExprElemV>)>, name: Seq<char>) -> int {
    choose|i: int| 0 <= i < t.len() && (#[trigger] t[i]).0 == name
}

/// The body of the snippet named `name` (the table's keys are unique).
pub open spec fn table_get(t: Seq<(Seq<char>, Seq<StringExprElemV>)>, name: Seq<char>) -> Seq<
    StringExprElemV,
> {
    t[table_index(t, name)].1
}

/// The table after adding a snippet: a redeclared name replaces the earlier
/// body in place, a new name goes to the end.
pub open spec fn spec_table_insert(
    t: Seq<(Seq<char>, Seq<StringExprElemV>)>,
    name: Seq<char>,
    elems: Seq<StringExprElemV>,
) -> Seq<(Seq<char>, Seq<StringExprElemV>)> {
    if table_has(t, name) {
        t.update(table_index(t, name), (name, elems))
    } else {
        t.push((name, elems))
    }
}

impl SnippetTable {
    /// Snippet names are unique.
    pub open spec fn wf(&self) -> bool {
        forall|i: int, j: int|
            0 <= i < j < self@.len() ==> (#[trigger] self@[i]).0 != (#[trigger] self@[j]).0
    }

    /// An empty snippet table.
    pub fn new() -> (t: Self)
        ensures
            t@.len() == 0,
            t.wf(),
    {
        SnippetTable { entries: Vec::new() }
    }

    fn position_of(&self, name: &String) -> (r: Option<usize>)
        ensures
            match r {
                Option::Some(i) => i < self@.len() && self@[i as int].0 == name@,
                Option::None => !table_has(self@, name@),
            },
    {
        let mut i: usize = 0;
        while i < self.entries.len()
            invariant
                i <= self.entries@.len(),
                self@.len() == self.entries@.len(),
                forall|j: int| 0 <= j < i ==> (#[trigger] self@[j]).0 != name@,
                forall|j: int|
                    0 <= j < self@.len() ==> (#[trigger] self@[j]) == (
                    self.entries@[j].0@,
                    self.entries@[j].1@,
                    ),
            decreases self.entries@.len() - i,
        {
            if self.entries[i].0 == *name {
                return Some(i);
            }
            i = i + 1;
        }
        None
    }

    /// Adds a snippet. A snippet declared again under the same name replaces
    /// the earlier declaration.
    pub fn insert(&mut self, name: String, expr: StringExpr)
        requires
            old(self).wf(),
        ensures
            final(self).wf(),
            final(self)@ == spec_table_insert(old(self)@, name@, expr@),
            table_has(final(self)@, name@),
            table_get(final(self)@, name@) == expr@,
            forall|n: Seq<char>|
                n != name@ ==> (table_has(final(self)@, n) <==> table_has(old(self)@, n)),
            forall|n: Seq<char>|
                n != name@ && table_has(old(self)@, n) ==> table_get(final(self)@, n) == table_get(
                    old(self)@,
                    n,
                ),
    {
        let ghost oldt = self@;
        match self.position_of(&name) {
            Some(i) => {
                self.entries.set(i, (name, expr));
                proof {
                    let t = self@;
                    assert forall|j: int| 0 <= j < t.len() implies (#[trigger] t[j]) == (
                        if j == i {
                            (oldt[j].0, expr@)
                        } else {
                            oldt[j]
                        }) by {}
                    assert(t[i as int].0 == oldt[i as int].0);
                    lemma_table_lookup_at(oldt, name@, i as int);
                    assert(t =~= spec_table_insert(oldt, name@, expr@));
                    lemma_table_lookup(t, i as int);
                    assert forall|n: Seq<char>| n != t[i as int].0 implies (table_has(t, n)
                        <==> table_has(oldt, n)) by {
                        if table_has(t, n) {
                            let j = choose|j: int| 0 <= j < t.len() && (#[trigger] t[j]).0 == n;
                            assert(oldt[j].0 == n);
                        }
                        if table_has(oldt, n) {
                            let j = choose|j: int|
                                0 <= j < oldt.len() && (#[trigger] oldt[j]).0 == n;
                            assert(t[j].0 == n);
                        }
                    }
                    assert forall|n: Seq<char>|
                        n != t[i as int].0 && table_has(oldt, n) implies table_get(t, n)
                        == table_get(oldt, n) by {
                        let j = table_index(t, n);
                        assert(oldt[j].0 == n);
                        lemma_table_lookup_at(oldt, n, j);
                    }
                }
            },
            None => {
                self.entries.push((name, expr));
                proof {
                    let t = self@;
                    assert(t.len() == oldt.len() + 1);
                    assert forall|j: int| 0 <= j < oldt.len() implies (#[trigger] t[j])
                        == oldt[j] by {}
                    assert(t[t.len() - 1] == (name@, expr@));
                    assert(t =~= spec_table_insert(oldt, name@, expr@));
                    lemma_table_lookup(t, t.len() - 1);
                    assert forall|n: Seq<char>| n != name@ implies (table_has(t, n) <==> table_has(
                        oldt,
                        n,
                    )) by {
                        if table_has(t, n) {
                            let j = choose|j: int| 0 <= j < t.len() && (#[trigger] t[j]).0 == n;
                            assert(0 <= j < oldt.len() && oldt[j].0 == n);
                        }
                        if table_has(oldt, n) {
                            let j = choose|j: int|
                                0 <= j < oldt.len() && (#[trigger] oldt[j]).0 == n;
                            assert(t[j].0 == n);
                        }
                    }
                    assert forall|n: Seq<char>|
                        n != name@ && table_has(oldt, n) implies table_get(t, n) == table_get(
                        oldt,
                        n,
                    ) by {
                        let j = table_index(t, n);
                        assert(oldt[j].0 == n);
                        lemma_table_lookup_at(oldt, n, j);
                    }
                }
            },
        }
    }

    /// Looks a snippet up by name.
    pub fn get(&self, name: &String) -> (r: Option<&StringExpr>)
        requires
            self.wf(),
        ensures
            match r {
                Option::Some(e) => table_has(self@, name@) && e@ == table_get(self@, name@),
                Option::None => !table_has(self@, name@),
            },
    {
        match self.position_of(name) {
            Some(i) => {
                proof {
                    lemma_table_lookup_wf(self@, name@, i as int);
                }
                Some(&self.entries[i].1)
            },
            None => None,
        }
    }
}

/// In a table whose keys are unique up to `i`, looking up the name stored at
/// `i` finds exactly position `i`.
proof fn lemma_table_lookup(t: Seq<(Seq<char>, Seq<StringExprElemV>)>, i: int)
    requires
        0 <= i < t.len(),
        forall|a: int, b: int| 0 <= a < b < t.len() ==> (#[trigger] t[a]).0 != (#[trigger] t[b]).0,
    ensures
        table_has(t, t[i].0),
        table_index(t, t[i].0) == i,
        table_get(t, t[i].0) == t[i].1,
{
    assert(table_has(t, t[i].0));
    let j = table_index(t, t[i].0);
    if j != i {
        assert(t[j].0 == t[i].0);
        assert(false);
    }
}

/// If position `j` holds `n` and the keys are unique, the lookup lands on `j`.
proof fn lemma_table_lookup_at(t: Seq<(Seq<char>, Seq<StringExprElemV>)>, n: Seq<char>, j: int)
    requires
        0 <= j < t.len(),
        t[j].0 == n,
        forall|a: int, b: int| 0 <= a < b < t.len() ==> (#[trigger] t[a]).0 != (#[trigger] t[b]).0,
    ensures
        table_index(t, n) == j,
        table_get(t, n) == t[j].1,
{
    lemma_table_lookup(t, j);
}

proof fn lemma_table_lookup_wf(t: Seq<(Seq<char>, Seq<StringExprElemV>)>, n: Seq<char>, i: int)
    requires
        0 <= i < t.len(),
        t[i].0 == n,
        forall|a: int, b: int| 0 <= a < b < t.len() ==> (#[trigger] t[a]).0 != (#[trigger] t[b]).0,
    ensures
        table_has(t, n),
        table_get(t, n) == t[i].1,
{
    lemma_table_lookup(t, i);
}

// ---------------------------------------------------------------------------
// Expression resolution
// ---------------------------------------------------------------------------
/// Errors of resolving a string expression against the snippet table.
#[derive(Debug, PartialEq)]
pub enum ResolveError {
    /// A referenced snippet is not declared. Carries the snippet name.
    UndefinedSnippet(String),
    /// A snippet refers, directly or transitively, to itself. Carries the
    /// full reference chain ending at the repeated name.
    ResolutionCycle(Vec<String>),
}

pub enum ResolveErrorV {
    UndefinedSnippet(Seq<char>),
    ResolutionCycle(Seq<Seq<char>>),
}

impl View for ResolveError {
    type V = ResolveErrorV;

    open spec fn view(&self) -> ResolveErrorV {
        match self {
            ResolveError::UndefinedSnippet(s) => ResolveErrorV::UndefinedSnippet(s@),
            ResolveError::ResolutionCycle(c) => ResolveErrorV::ResolutionCycle(c.deep_view()),
        }
    }
}

/// A list of distinct names, each of which has the property `keys.contains`,
/// cannot be longer than `keys`.
pub proof fn lemma_distinct_names_bound(names: Seq<Seq<char>>, keys: Seq<Seq<char>>)
    requires
        names.no_duplicates(),
        forall|i: int| 0 <= i < names.len() ==> keys.contains(#[trigger] names[i]),
    ensures
        names.len() <= keys.len(),
{
    broadcast use vstd::seq_lib::group_seq_lib_default;

    let idxs = names.map_values(
        |n: Seq<char>| choose|j: int| 0 <= j < keys.len() && keys[j] == n,
    );
    assert forall|a: int, b: int| 0 <= a < b < idxs.len() implies idxs[a] != idxs[b] by {
        assert(keys.contains(names[a]));
        assert(keys.contains(names[b]));
        assert(keys[idxs[a]] == names[a]);
        assert(keys[idxs[b]] == names[b]);
    }
    assert(idxs.no_duplicates());
    idxs.unique_seq_to_set();
    assert forall|x: int| idxs.to_set().contains(x) implies vstd::set_lib::set_int_range(
        0,
        keys.len() as int,
    ).contains(x) by {
        let i = choose|i: int| 0 <= i < idxs.len() && idxs[i] == x;
        assert(keys.contains(names[i]));
        assert(keys[idxs[i]] == names[i]);
    }
    vstd::set_lib::lemma_int_range(0, keys.len() as int);
    vstd::set_lib::lemma_len_subset(
        idxs.to_set(),
        vstd::set_lib::set_int_range(0, keys.len() as int),
    );
}

/// The names of all snippets in the table.
pub open spec fn table_names(t: Seq<(Seq<char>, Seq<StringExprElemV>)>) -> Seq<Seq<char>> {
    t.map_values(|e: (Seq<char>, Seq<StringExprElemV>)| e.0)
}

/// The chain of snippet names currently being resolved: pairwise distinct,
/// every one declared in the table.
pub open spec fn parents_ok(
    t: Seq<(Seq<char>, Seq<StringExprElemV>)>,
    parents: Seq<Seq<char>>,
) -> bool {
    &&& parents.no_duplicates()
    &&& forall|i: int| 0 <= i < parents.len() ==> table_has(t, #[trigger] parents[i])
}

pub proof fn lemma_parents_bound(
    t: Seq<(Seq<char>, Seq<StringExprElemV>)>,
    parents: Seq<Seq<char>>,
)
    requires
        parents_ok(t, parents),
    ensures
        parents.len() <= t.len(),
{
    assert forall|i: int| 0 <= i < parents.len() implies table_names(t).contains(
        #[trigger] parents[i],
    ) by {
        let j = choose|j: int| 0 <= j < t.len() && (#[trigger] t[j]).0 == parents[i];
        assert(table_names(t)[j] == parents[i]);
    }
    lemma_distinct_names_bound(parents, table_names(t));
}

/// Resolution of the elements `elems[k..]` against the snippet table `t`,
/// with `parents` the chain of snippet names currently being resolved: a
/// literal contributes its characters; a reference to an undeclared name
/// fails with `UndefinedSnippet`; a reference to a name already being
/// resolved fails with `ResolutionCycle`; any other reference contributes
/// the resolution of the referenced snippet's own expression. The first
/// failing element (leftmost, innermost) decides the error.
pub open spec fn spec_resolve_elems(
    t: Seq<(Seq<char>, Seq<StringExprElemV>)>,
    elems: Seq<StringExprElemV>,
    k: int,
    parents: Seq<Seq<char>>,
) -> Result<Seq<char>, ResolveErrorV>
    decreases t.len() - parents.len(), elems.len() - k,
    when 0 <= k <= elems.len() && parents_ok(t, parents)
{
    if k == elems.len() {
        Result::Ok(Seq::empty())
    } else {
        let head = match elems[k] {
            StringExprElemV::Lit(s) => Result::Ok(s),
            StringExprElemV::Symbol(name) => {
                if !table_has(t, name) {
                    Result::Err(ResolveErrorV::UndefinedSnippet(name))
                } else if parents.contains(name) {
                    Result::Err(ResolveErrorV::ResolutionCycle(parents.push(name)))
                } else {
                    proof {
                        lemma_parents_bound(t, parents.push(name));
                    }
                    spec_resolve_elems(t, table_get(t, name), 0, parents.push(name))
                }
            },
        };
        match head {
            Result::Err(e) => Result::Err(e),
            Result::Ok(h) => match spec_resolve_elems(t, elems, k + 1, parents) {
                Result::Err(e) => Result::Err(e),
                Result::Ok(rest) => Result::Ok(h + rest),
            },
        }
    }
}

/// Resolution of a whole expression with an empty chain.
pub open spec fn spec_resolve(
    t: Seq<(Seq<char>, Seq<StringExprElemV>)>,
    elems: Seq<StringExprElemV>,
) -> Result<Seq<char>, ResolveErrorV> {
    spec_resolve_elems(t, elems, 0, Seq::empty())
}

/// Whether `v` holds a string whose characters are `name`.
fn vec_string_contains(v: &Vec<String>, name: &String) -> (b: bool)
    ensures
        b == v.deep_view().contains(name@),
{
    let mut i: usize = 0;
    while i < v.len()
        invariant
            i <= v@.len(),
            forall|j: int| 0 <= j < i ==> v.deep_view()[j] != name@,
        decreases v@.len() - i,
    {
        if v[i] == *name {
            proof {
                assert(v.deep_view()[i as int] == name@);
            }
            return true;
        }
        i = i + 1;
    }
    false
}

impl StringExpr {
    /// Resolves the expression against the snippet table, concatenating the
    /// resolved value of each element in order. Fails with
    /// `UndefinedSnippet` on a reference to an undeclared snippet and with
    /// `ResolutionCycle` on a snippet that, directly or transitively, refers
    /// to itself.
    pub fn resolve(&self, snippet_table: &SnippetTable) -> (r: Result<String, ResolveError>)
        requires
            snippet_table.wf(),
        ensures
            match r {
                Result::Ok(s) => spec_resolve(snippet_table@, self@) == Result::<
                    Seq<char>,
                    ResolveErrorV,
                >::Ok(s@),
                Result::Err(e) => spec_resolve(snippet_table@, self@) == Result::<
                    Seq<char>,
                    ResolveErrorV,
                >::Err(e@),
            },
    {
        let parents: Vec<String> = Vec::new();
        proof {
            assert(parents.deep_view() =~= Seq::<Seq<char>>::empty());
        }
        self.inner_resolve(snippet_table, &parents)
    }

    fn inner_resolve(&self, snippet_table: &SnippetTable, parents: &Vec<String>) -> (r: Result<
        String,
        ResolveError,
    >)
        requires
            snippet_table.wf(),
            parents_ok(snippet_table@, parents.deep_view()),
        ensures
            match r {
                Result::Ok(s) => spec_resolve_elems(snippet_table@, self@, 0, parents.deep_view())
                    == Result::<Seq<char>, ResolveErrorV>::Ok(s@),
                Result::Err(e) => spec_resolve_elems(
                    snippet_table@,
                    self@,
                    0,
                    parents.deep_view(),
                ) == Result::<Seq<char>, ResolveErrorV>::Err(e@),
            },
        decreases snippet_table@.len() - parents.deep_view().len(),
    {
        let ghost t = snippet_table@;
        let ghost elemsv = self@;
        let ghost pv = parents.deep_view();
        proof {
            lemma_parents_bound(t, pv);
        }
        let mut acc = String::new();
        let mut k: usize = 0;
        while k < self.0.len()
            invariant
                snippet_table.wf(),
                parents_ok(t, pv),
                t == snippet_table@,
                elemsv == self@,
                pv == parents.deep_view(),
                k <= self.0@.len(),
                elemsv.len() == self.0@.len(),
                spec_resolve_elems(t, elemsv, 0, pv) == (match spec_resolve_elems(
                    t,
                    elemsv,
                    k as int,
                    pv,
                ) {
                    Result::<Seq<char>, ResolveErrorV>::Ok(rest) => Result::<
                        Seq<char>,
                        ResolveErrorV,
                    >::Ok(acc@ + rest),
                    Result::<Seq<char>, ResolveErrorV>::Err(e) => Result::<
                        Seq<char>,
                        ResolveErrorV,
                    >::Err(e),
                }),
            decreases self.0@.len() - k,
        {
            let ghost k0 = k as int;
            let ghost acc0 = acc@;
            match &self.0[k] {
                StringExprElem::String(s) => {
                    acc.append(s.as_str());
                    proof {
                        assert(elemsv[k0] is Lit && elemsv[k0]->Lit_0 == s@);
                        if spec_resolve_elems(t, elemsv, k0 + 1, pv) is Ok {
                            let rest = spec_resolve_elems(t, elemsv, k0 + 1, pv)->Ok_0;
                            assert(acc0 + (s@ + rest) =~= (acc0 + s@) + rest);
                        }
                    }
                },
                StringExprElem::Symbol(name) => {
                    proof {
                        assert(elemsv[k0] is Symbol && elemsv[k0]->Symbol_0 == name@);
                    }
                    match snippet_table.get(name) {
                        None => {
                            return Err(ResolveError::UndefinedSnippet(name.clone()));
                        },
                        Some(snip) => {
                            if vec_string_contains(parents, name) {
                                let mut chain = clone_string_vec(parents);
                                chain.push(name.clone());
                                proof {
                                    assert(chain.deep_view() =~= pv.push(name@));
                                }
                                return Err(ResolveError::ResolutionCycle(chain));
                            }
                            let mut new_parents = clone_string_vec(parents);
                            new_parents.push(name.clone());
                            proof {
                                assert(new_parents.deep_view() =~= pv.push(name@));
                                assert(pv.push(name@).no_duplicates());
                                lemma_parents_bound(t, pv.push(name@));
                            }
                            match snip.inner_resolve(snippet_table, &new_parents) {
                                Ok(s) => {
                                    acc.append(s.as_str());
                                    proof {
                                        if spec_resolve_elems(t, elemsv, k0 + 1, pv) is Ok {
                                            let rest = spec_resolve_elems(
                                                t,
                                                elemsv,
                                                k0 + 1,
                                                pv,
                                            )->Ok_0;
                                            assert(acc0 + (s@ + rest) =~= (acc0 + s@) + rest);
                                        }
                                    }
                                },
                                Err(e) => {
                                    return Err(e);
                                },
                            }
                        },
                    }
                },
            }
            k = k + 1;
        }
        proof {
            assert(acc@ + Seq::<char>::empty() =~= acc@);
        }
        Ok(acc)
    }
}

// ---------------------------------------------------------------------------
// Raw declarations and the menu symbol table
// ---------------------------------------------------------------------------
/// The target of one raw menu entry: a symbolic reference to another menu,
/// or an inline command.
#[derive(Debug)]
pub enum RawTarget {
    Submenu(String),
    Cmd(Command),
}

/// One raw entry line: a key path and its target.
#[derive(Debug)]
pub struct RawEntry {
    pub keys: Vec<char>,
    pub target: RawTarget,
}

/// One parsed `menu` declaration, its submenu references not yet resolved.
#[derive(Debug)]
pub struct RawMenuDecl {
    pub name: String,
    pub display_name: Option<String>,
    pub entries: Vec<RawEntry>,
}

pub enum RawTargetV {
    Submenu(Seq<char>),
    Cmd(CommandV),
}

pub struct RawEntryV {
    pub keys: Seq<char>,
    pub target: RawTargetV,
}

pub struct RawMenuDeclV {
    pub name: Seq<char>,
    pub display_name: Option<Seq<char>>,
    pub entries: Seq<RawEntryV>,
}

impl View for RawTarget {
    type V = RawTargetV;

    open spec fn view(&self) -> RawTargetV {
        match self {
            RawTarget::Submenu(s) => RawTargetV::Submenu(s@),
            RawTarget::Cmd(c) => RawTargetV::Cmd(c@),
        }
    }
}

impl View for RawEntry {
    type V = RawEntryV;

    open spec fn view(&self) -> RawEntryV {
        RawEntryV { keys: self.keys@, target: self.target@ }
    }
}

impl View for RawMenuDecl {
    type V = RawMenuDeclV;

    open spec fn view(&self) -> RawMenuDeclV {
        RawMenuDeclV {
            name: self.name@,
            display_name: opt_string_view(self.display_name),
            entries: self.entries@.map_values(|e: RawEntry| e@),
        }
    }
}

/// The symbol table of raw menu declarations, keyed by menu name (unique).
#[derive(Debug)]
pub struct MenuTable {
    pub menus: Vec<RawMenuDecl>,
}

impl View for MenuTable {
    type V = Seq<RawMenuDeclV>;

    open spec fn view(&self) -> Seq<RawMenuDeclV> {
        self.menus@.map_values(|d: RawMenuDecl| d@)
    }
}

pub open spec fn mt_has(t: Seq<RawMenuDeclV>, name: Seq<char>) -> bool {
    exists|i: int| 0 <= i < t.len() && (#[trigger] t[i]).name == name
}

pub open spec fn mt_index(t: Seq<RawMenuDeclV>, name: Seq<char>) -> int {
    choose|i: int| 0 <= i < t.len() && (#[trigger] t[i]).name == name
}

pub open spec fn mt_get(t: Seq<RawMenuDeclV>, name: Seq<char>) -> RawMenuDeclV {
    t[mt_index(t, name)]
}

/// Menu names are unique.
pub open spec fn mt_wf(t: Seq<RawMenuDeclV>) -> bool {
    forall|i: int, j: int|
        0 <= i < j < t.len() ==> (#[trigger] t[i]).name != (#[trigger] t[j]).name
}

/// All key paths of all raw declarations are non-empty (the grammar cannot
/// produce an empty one).
pub open spec fn mt_keys_nonempty(t: Seq<RawMenuDeclV>) -> bool {
    forall|i: int, k: int|
        0 <= i < t.len() && 0 <= k < (#[trigger] t[i]).entries.len() ==> (#[trigger] t[i].entries[
            k
        ]).keys.len() > 0
}

pub open spec fn mt_ok(t: Seq<RawMenuDeclV>) -> bool {
    mt_wf(t) && mt_keys_nonempty(t)
}

proof fn lemma_mt_lookup(t: Seq<RawMenuDeclV>, i: int)
    requires
        0 <= i < t.len(),
        mt_wf(t),
    ensures
        mt_has(t, t[i].name),
        mt_index(t, t[i].name) == i,
        mt_get(t, t[i].name) == t[i],
{
    assert(mt_has(t, t[i].name));
    let j = mt_index(t, t[i].name);
    if j != i {
        assert(t[j].name == t[i].name);
        assert(false);
    }
}

impl MenuTable {
    /// An empty table.
    pub fn new() -> (t: Self)
        ensures
            t@.len() == 0,
            mt_wf(t@),
    {
        MenuTable { menus: Vec::new() }
    }

    fn position_of(&self, name: &String) -> (r: Option<usize>)
        ensures
            match r {
                Option::Some(i) => i < self@.len() && self@[i as int].name == name@,
                Option::None => !mt_has(self@, name@),
            },
    {
        let mut i: usize = 0;
        while i < self.menus.len()
            invariant
                i <= self.menus@.len(),
                self@.len() == self.menus@.len(),
                forall|j: int| 0 <= j < i ==> (#[trigger] self@[j]).name != name@,
                forall|j: int| 0 <= j < self@.len() ==> (#[trigger] self@[j]) == self.menus@[j]@,
            decreases self.menus@.len() - i,
        {
            if self.menus[i].name == *name {
                return Some(i);
            }
            i = i + 1;
        }
        None
    }

    /// Adds a declaration; a second declaration under an already declared
    /// name is rejected with `DuplicateMenuName`.
    pub fn insert_unique(&mut self, decl: RawMenuDecl) -> (r: Result<(), CompileError>)
        requires
            mt_wf(old(self)@),
        ensures
            match r {
                Result::Ok(()) => final(self)@ == old(self)@.push(decl@) && mt_wf(final(self)@)
                    && !mt_has(old(self)@, decl@.name),
                Result::Err(e) => final(self)@ == old(self)@ && mt_has(old(self)@, decl@.name) && e@
                    == (CompileErrorV::DuplicateMenuName { name: decl@.name }),
            },
    {
        match self.position_of(&decl.name) {
            Some(_) => Err(CompileError::DuplicateMenuName { name: decl.name.clone() }),
            None => {
                let ghost oldv = self@;
                let ghost declv = decl@;
                self.menus.push(decl);
                proof {
                    assert(self@ =~= oldv.push(declv));
                    assert forall|a: int, b: int|
                        0 <= a < b < self@.len() implies (#[trigger] self@[a]).name != (
                    #[trigger] self@[b]).name by {
                        if b == self@.len() - 1 {
                            assert(!mt_has(oldv, declv.name));
                            assert(oldv[a].name != declv.name);
                        }
                    }
                }
                Ok(())
            },
        }
    }

    /// Looks a declaration up by menu name.
    pub fn get(&self, name: &String) -> (r: Option<&RawMenuDecl>)
        requires
            mt_wf(self@),
        ensures
            match r {
                Option::Some(d) => mt_has(self@, name@) && d@ == mt_get(self@, name@),
                Option::None => !mt_has(self@, name@),
            },
    {
        match self.position_of(name) {
            Some(i) => {
                proof {
                    lemma_mt_lookup(self@, i as int);
                }
                Some(&self.menus[i])
            },
            None => None,
        }
    }
}

// ---------------------------------------------------------------------------
// Compile errors
// ---------------------------------------------------------------------------
/// Errors of compiling a configuration, each contextualized with the chain
/// of menu names from the root to the failure point.
#[derive(Debug, PartialEq)]
pub enum CompileError {
    /// The text does not follow the configuration grammar. Carries the
    /// character position of the failure.
    GrammarError { pos: usize },
    /// Two menus are declared under the same name.
    DuplicateMenuName { name: String },
    /// No menu named `root` is declared.
    MissingRoot,
    /// An entry references a menu name that is not declared anywhere.
    UndefinedSymbol { name: String, chain: Vec<String> },
    /// A menu references itself, directly or transitively.
    MenuCycle { name: String, chain: Vec<String> },
    /// Two entries of one menu carry an identical key path.
    DuplicateKeyPath { menu: String, keys: Vec<char>, chain: Vec<String> },
}

pub enum CompileErrorV {
    GrammarError { pos: int },
    DuplicateMenuName { name: Seq<char> },
    MissingRoot,
    UndefinedSymbol { name: Seq<char>, chain: Seq<Seq<char>> },
    MenuCycle { name: Seq<char>, chain: Seq<Seq<char>> },
    DuplicateKeyPath { menu: Seq<char>, keys: Seq<char>, chain: Seq<Seq<char>> },
}

impl View for CompileError {
    type V = CompileErrorV;

    open spec fn view(&self) -> CompileErrorV {
        match self {
            CompileError::GrammarError { pos } => CompileErrorV::GrammarError { pos: *pos as int },
            CompileError::DuplicateMenuName { name } => CompileErrorV::DuplicateMenuName {
                name: name@,
            },
            CompileError::MissingRoot => CompileErrorV::MissingRoot,
            CompileError::UndefinedSymbol { name, chain } => CompileErrorV::UndefinedSymbol {
                name: name@,
                chain: chain.deep_view(),
            },
            CompileError::MenuCycle { name, chain } => CompileErrorV::MenuCycle {
                name: name@,
                chain: chain.deep_view(),
            },
            CompileError::DuplicateKeyPath { menu, keys, chain } => CompileErrorV::DuplicateKeyPath {
                menu: menu@,
                keys: keys@,
                chain: chain.deep_view(),
            },
        }
    }
}

// ---------------------------------------------------------------------------
// Materializing the tree
// ---------------------------------------------------------------------------
pub open spec fn mt_names(t: Seq<RawMenuDeclV>) -> Seq<Seq<char>> {
    t.map_values(|d: RawMenuDeclV| d.name)
}

/// The chain of menu names currently being expanded: pairwise distinct,
/// every one declared in the table.
pub open spec fn chain_ok(t: Seq<RawMenuDeclV>, chain: Seq<Seq<char>>) -> bool {
    &&& chain.no_duplicates()
    &&& forall|i: int| 0 <= i < chain.len() ==> mt_has(t, #[trigger] chain[i])
}

pub proof fn lemma_chain_bound(t: Seq<RawMenuDeclV>, chain: Seq<Seq<char>>)
    requires
        chain_ok(t, chain),
    ensures
        chain.len() <= t.len(),
{
    assert forall|i: int| 0 <= i < chain.len() implies mt_names(t).contains(
        #[trigger] chain[i],
    ) by {
        let j = choose|j: int| 0 <= j < t.len() && (#[trigger] t[j]).name == chain[i];
        assert(mt_names(t)[j] == chain[i]);
    }
    lemma_distinct_names_bound(chain, mt_names(t));
}

/// Materialization of the menu named `name`, with `chain` the names of the
/// enclosing menus on the current path: a name already on the path is a
/// `MenuCycle`; an undeclared name is an `UndefinedSymbol`; otherwise every
/// entry of the declaration is materialized in order.
pub open spec fn spec_materialize(
    t: Seq<RawMenuDeclV>,
    name: Seq<char>,
    chain: Seq<Seq<char>>,
) -> Result<MenuV, CompileErrorV>
    decreases t.len() - chain.len(), 0int,
    when mt_ok(t) && chain_ok(t, chain)
{
    if chain.contains(name) {
        Result::Err(CompileErrorV::MenuCycle { name, chain })
    } else if !mt_has(t, name) {
        Result::Err(CompileErrorV::UndefinedSymbol { name, chain })
    } else {
        let decl = mt_get(t, name);
        proof {
            lemma_chain_bound(t, chain.push(name));
        }
        match spec_materialize_entries(t, name, decl.entries, chain.push(name), 0) {
            Result::Err(e) => Result::Err(e),
            Result::Ok(es) => Result::Ok(
                MenuV { name, display_name: decl.display_name, entries: es },
            ),
        }
    }
}

/// Materialization of the entries `raw[k..]` of the menu named `menu_name`:
/// a key path equal to an earlier one in the same menu is a
/// `DuplicateKeyPath`; a submenu reference is materialized recursively; the
/// first failing entry (leftmost, innermost) decides the error.
pub open spec fn spec_materialize_entries(
    t: Seq<RawMenuDeclV>,
    menu_name: Seq<char>,
    raw: Seq<RawEntryV>,
    chain: Seq<Seq<char>>,
    k: int,
) -> Result<Seq<(Seq<char>, NodeV)>, CompileErrorV>
    decreases t.len() - chain.len(), raw.len() - k,
    when mt_ok(t) && chain_ok(t, chain) && 0 <= k <= raw.len()
{
    if k == raw.len() {
        Result::Ok(Seq::empty())
    } else {
        let e = raw[k];
        if exists|j: int| 0 <= j < k && (#[trigger] raw[j]).keys == e.keys {
            Result::Err(
                CompileErrorV::DuplicateKeyPath { menu: menu_name, keys: e.keys, chain },
            )
        } else {
            let head = match e.target {
                RawTargetV::Cmd(c) => Result::Ok(NodeV::Command(c)),
                RawTargetV::Submenu(sub) => match spec_materialize(t, sub, chain) {
                    Result::Ok(m) => Result::Ok(NodeV::Menu(m)),
                    Result::Err(er) => Result::Err(er),
                },
            };
            match head {
                Result::Err(er) => Result::Err(er),
                Result::Ok(node) => match spec_materialize_entries(
                    t,
                    menu_name,
                    raw,
                    chain,
                    k + 1,
                ) {
                    Result::Err(er) => Result::Err(er),
                    Result::Ok(rest) => Result::Ok(seq![(e.keys, node)] + rest),
                },
            }
        }
    }
}

/// Compares two key paths.
pub fn vec_char_eq(a: &Vec<char>, b: &Vec<char>) -> (r: bool)
    ensures
        r <==> a@ == b@,
{
    if a.len() != b.len() {
        return false;
    }
    let mut i: usize = 0;
    while i < a.len()
        invariant
            i <= a@.len(),
            a@.len() == b@.len(),
            forall|j: int| 0 <= j < i ==> a@[j] == b@[j],
        decreases a@.len() - i,
    {
        if a[i] != b[i] {
            return false;
        }
        i = i + 1;
    }
    proof {
        assert(a@ =~= b@);
    }
    true
}

/// Copies a key path.
pub fn clone_chars(v: &Vec<char>) -> (r: Vec<char>)
    ensures
        r@ == v@,
{
    let mut r: Vec<char> = Vec::new();
    let mut i: usize = 0;
    while i < v.len()
        invariant
            i <= v@.len(),
            r@.len() == i,
            forall|j: int| 0 <= j < i ==> r@[j] == v@[j],
        decreases v@.len() - i,
    {
        r.push(v[i]);
        i = i + 1;
    }
    proof {
        assert(r@ =~= v@);
    }
    r
}

fn entries_contain_key(entries: &Vec<(Vec<char>, Node)>, keys: &Vec<char>) -> (b: bool)
    ensures
        b <==> exists|j: int| 0 <= j < entries@.len() && (#[trigger] entries@[j]).0@ == keys@,
{
    let mut i: usize = 0;
    while i < entries.len()
        invariant
            i <= entries@.len(),
            forall|j: int| 0 <= j < i ==> (#[trigger] entries@[j]).0@ != keys@,
        decreases entries@.len() - i,
    {
        if vec_char_eq(&entries[i].0, keys) {
            return true;
        }
        i = i + 1;
    }
    false
}

/// Materializes the menu named `name` from the symbol table, recursively
/// resolving submenu references, with `chain` the enclosing menu names on
/// the current path. Rejects a reference cycle (`MenuCycle`), a dangling
/// reference (`UndefinedSymbol`), and two identical key paths within one
/// menu (`DuplicateKeyPath`), each contextualized with the chain.
pub fn parse_menu(name: &String, menus: &MenuTable, chain: &Vec<String>) -> (r: Result<
    Menu,
    CompileError,
>)
    requires
        mt_ok(menus@),
        chain_ok(menus@, chain.deep_view()),
    ensures
        match r {
            Result::Ok(menu) => spec_materialize(menus@, name@, chain.deep_view()) == Result::<
                MenuV,
                CompileErrorV,
            >::Ok(menu@),
            Result::Err(e) => spec_materialize(menus@, name@, chain.deep_view()) == Result::<
                MenuV,
                CompileErrorV,
            >::Err(e@),
        },
    decreases menus@.len() - chain.deep_view().len(),
{
    let ghost t = menus@;
    let ghost chainv = chain.deep_view();
    proof {
        lemma_chain_bound(t, chainv);
    }
    if vec_string_contains(chain, name) {
        return Err(
            CompileError::MenuCycle { name: name.clone(), chain: clone_string_vec(chain) },
        );
    }
    let decl = match menus.get(name) {
        None => {
            return Err(
                CompileError::UndefinedSymbol {
                    name: name.clone(),
                    chain: clone_string_vec(chain),
                },
            );
        },
        Some(d) => d,
    };
    let mut chain2 = clone_string_vec(chain);
    chain2.push(name.clone());
    let ghost chainv2 = chainv.push(name@);
    proof {
        assert(chain2.deep_view() =~= chainv2);
        lemma_chain_bound(t, chainv2);
    }
    let ghost declv = mt_get(t, name@);
    let ghost raw = declv.entries;
    proof {
        assert(raw.len() == decl.entries@.len());
        assert(forall|j: int|
            0 <= j < raw.len() ==> #[trigger] raw[j] == decl.entries@[j]@);
    }
    let mut entries: Vec<(Vec<char>, Node)> = Vec::new();
    let mut k: usize = 0;
    while k < decl.entries.len()
        invariant
            mt_ok(t),
            chain_ok(t, chainv2),
            t == menus@,
            chainv == chain.deep_view(),
            chain_ok(t, chainv),
            !chainv.contains(name@),
            mt_has(t, name@),
            chainv2 == chainv.push(name@),
            chainv2 == chain2.deep_view(),
            chainv2.len() <= t.len(),
            declv == mt_get(t, name@),
            raw == declv.entries,
            raw.len() == decl.entries@.len(),
            forall|j: int| 0 <= j < raw.len() ==> #[trigger] raw[j] == decl.entries@[j]@,
            k <= raw.len(),
            entries@.len() == k,
            forall|j: int| 0 <= j < k ==> (#[trigger] entries@[j]).0@ == raw[j].keys,
            entries_view(entries@).len() == k,
            forall|j: int|
                0 <= j < k ==> #[trigger] entries_view(entries@)[j] == (
                entries@[j].0@,
                node_view(entries@[j].1),
                ),
            spec_materialize_entries(t, name@, raw, chainv2, 0) == (match spec_materialize_entries(
                t,
                name@,
                raw,
                chainv2,
                k as int,
            ) {
                Result::<Seq<(Seq<char>, NodeV)>, CompileErrorV>::Ok(rest) => Result::<
                    Seq<(Seq<char>, NodeV)>,
                    CompileErrorV,
                >::Ok(entries_view(entries@) + rest),
                Result::<Seq<(Seq<char>, NodeV)>, CompileErrorV>::Err(e) => Result::<
                    Seq<(Seq<char>, NodeV)>,
                    CompileErrorV,
                >::Err(e),
            }),
        decreases raw.len() - k,
    {
        let ghost k0 = k as int;
        let ghost entries0 = entries@;
        let e = &decl.entries[k];
        proof {
            assert(raw[k0] == e@);
        }
        if entries_contain_key(&entries, &e.keys) {
            proof {
                let j = choose|j: int| 0 <= j < entries0.len() && (#[trigger] entries0[j]).0@
                    == e.keys@;
                assert(raw[j].keys == raw[k0].keys);
            }
            return Err(
                CompileError::DuplicateKeyPath {
                    menu: name.clone(),
                    keys: clone_chars(&e.keys),
                    chain: chain2,
                },
            );
        }
        proof {
            assert forall|j: int| 0 <= j < k0 implies (#[trigger] raw[j]).keys
                != raw[k0].keys by {
                assert(entries0[j].0@ == raw[j].keys);
            }
        }
        let node: Node = match &e.target {
            RawTarget::Cmd(c) => Node::Command(c.clone()),
            RawTarget::Submenu(sub) => {
                match parse_menu(sub, menus, &chain2) {
                    Ok(m) => Node::Menu(m),
                    Err(er) => {
                        return Err(er);
                    },
                }
            },
        };
        entries.push((clone_chars(&e.keys), node));
        proof {
            assert(entries@.drop_last() =~= entries0);
            assert(entries_view(entries@) =~= entries_view(entries0).push(
                (raw[k0].keys, node_view(node)),
            ));
            if spec_materialize_entries(t, name@, raw, chainv2, k0 + 1) is Ok {
                let rest = spec_materialize_entries(t, name@, raw, chainv2, k0 + 1)->Ok_0;
                assert(entries_view(entries0) + (seq![(raw[k0].keys, node_view(node))] + rest)
                    =~= entries_view(entries@) + rest);
            }
        }
        k = k + 1;
    }
    let menu = Menu {
        name: name.clone(),
        display_name: clone_opt_string(&decl.display_name),
        entries,
    };
    proof {
        assert(entries_view(menu.entries@) + Seq::<(Seq<char>, NodeV)>::empty() =~= entries_view(
            menu.entries@,
        ));
        assert(menu@.entries =~= entries_view(menu.entries@));
    }
    Ok(menu)
}

impl Default for Settings {
    /// Settings before any configuration is read: no shell override and
    /// command echoing enabled.
    fn default() -> (r: Self)
        ensures
            r.shell_def is None,
            r.echo_by_default == true,
    {
        Settings { shell_def: None, echo_by_default: true }
    }
}

// ---------------------------------------------------------------------------
// The grammar parser: from characters to raw declarations
// ---------------------------------------------------------------------------
/// The view of a list of expression elements.
pub open spec fn elems_view(v: Seq<StringExprElem>) -> Seq<StringExprElemV> {
    v.map_values(|e: StringExprElem| e@)
}

/// One scanned element of a string expression: `$name`, or a string literal.
pub open spec fn spec_scan_elem(s: Seq<char>, p: int) -> Option<(StringExprElemV, int)> {
    if 0 <= p < s.len() && s[p] == '$' {
        match spec_scan_ident(s, p + 1) {
            Option::None => Option::None,
            Option::Some(e) => Option::Some((StringExprElemV::Symbol(s.subrange(p + 1, e)), e)),
        }
    } else {
        match spec_scan_string(s, p) {
            Option::None => Option::None,
            Option::Some(v) => Option::Some((StringExprElemV::Lit(v.0), v.1)),
        }
    }
}

/// A scanned element ends strictly after it begins and within the text.
pub proof fn lemma_scan_elem_advances(s: Seq<char>, p: int)
    requires
        0 <= p <= s.len(),
    ensures
        spec_scan_elem(s, p) matches Option::Some(v) ==> p < v.1 <= s.len(),
{
    if 0 <= p < s.len() && s[p] == '$' {
        if p + 1 < s.len() && is_ident_start_char(s[p + 1]) {
            lemma_ident_end_range(s, p + 2);
        }
    } else {
        lemma_scan_string_advances(s, p);
    }
}

/// The `+`-joined tail of a string expression after an element that ended at
/// `p`: the further elements and the position after the last one.
pub open spec fn spec_expr_tail(s: Seq<char>, p: int) -> Option<(Seq<StringExprElemV>, int)>
    decreases s.len() - p,
    when 0 <= p <= s.len()
{
    let q = spec_skip_ws(s, p);
    if q < s.len() && s[q] == '+' {
        let q2 = spec_skip_ws(s, q + 1);
        match spec_scan_elem(s, q2) {
            Option::None => Option::None,
            Option::Some(v) => {
                proof {
                    lemma_skip_ws_range(s, p);
                    lemma_skip_ws_range(s, q + 1);
                    lemma_scan_elem_advances(s, q2);
                }
                match spec_expr_tail(s, v.1) {
                    Option::None => Option::None,
                    Option::Some(rest) => Option::Some((seq![v.0] + rest.0, rest.1)),
                }
            },
        }
    } else {
        Option::Some((Seq::empty(), p))
    }
}

/// A whole string expression starting at `p`: one element, then the
/// `+`-joined tail.
pub open spec fn spec_parse_expr(s: Seq<char>, p: int) -> Option<(Seq<StringExprElemV>, int)> {
    match spec_scan_elem(s, p) {
        Option::None => Option::None,
        Option::Some(v) => match spec_expr_tail(s, v.1) {
            Option::None => Option::None,
            Option::Some(rest) => Option::Some((seq![v.0] + rest.0, rest.1)),
        },
    }
}

/// One element of a string expression: a quoted string, or `$name`.
fn parse_expr_elem(src: &Vec<char>, pos: usize) -> (r: Result<(StringExprElem, usize), CompileError>)
    requires
        pos <= src@.len(),
    ensures
        match r {
            Result::Ok(v) => spec_scan_elem(src@, pos as int) == Option::Some((v.0@, v.1 as int))
                && pos < v.1 <= src@.len(),
            Result::Err(e) => spec_scan_elem(src@, pos as int) is None && e@ is GrammarError,
        },
{
    if pos < src.len() && src[pos] == '$' {
        match scan_ident(src, pos + 1) {
            Some(end) => Ok((StringExprElem::Symbol(string_from_range(src, pos + 1, end)), end)),
            None => Err(CompileError::GrammarError { pos }),
        }
    } else {
        match scan_string(src, pos) {
            Some((content, end)) => Ok((StringExprElem::String(string_from_chars(&content)), end)),
            None => Err(CompileError::GrammarError { pos }),
        }
    }
}

/// The `+`-joined tail of a string expression, continuing after an element
/// that ended at `pos`. Returns the further elements.
fn parse_expr_tail(src: &Vec<char>, pos: usize) -> (r: Result<
    (Vec<StringExprElem>, usize),
    CompileError,
>)
    requires
        pos <= src@.len(),
    ensures
        match r {
            Result::Ok(v) => spec_expr_tail(src@, pos as int) == Option::Some(
                (elems_view(v.0@), v.1 as int),
            ) && pos <= v.1 <= src@.len(),
            Result::Err(e) => spec_expr_tail(src@, pos as int) is None && e@ is GrammarError,
        },
    decreases src@.len() - pos,
{
    let q = skip_ws(src, pos);
    if q < src.len() && src[q] == '+' {
        let q2 = skip_ws(src, q + 1);
        match parse_expr_elem(src, q2) {
            Err(e) => Err(e),
            Ok((el, p2)) => {
                match parse_expr_tail(src, p2) {
                    Err(er) => Err(er),
                    Ok((rest, rp)) => {
                        let ghost restv = rest@;
                        let mut rest = rest;
                        rest.insert(0, el);
                        proof {
                            assert(rest@ =~= seq![el] + restv);
                            assert(elems_view(rest@) =~= seq![el@] + elems_view(restv));
                        }
                        Ok((rest, rp))
                    },
                }
            },
        }
    } else {
        let r: Vec<StringExprElem> = Vec::new();
        proof {
            assert(elems_view(r@) =~= Seq::<StringExprElemV>::empty());
        }
        Ok((r, pos))
    }
}

/// A whole string expression: elements joined by `+`.
fn parse_string_expr_at(src: &Vec<char>, pos: usize) -> (r: Result<
    (StringExpr, usize),
    CompileError,
>)
    requires
        pos <= src@.len(),
    ensures
        match r {
            Result::Ok(v) => spec_parse_expr(src@, pos as int) == Option::Some(
                (v.0@, v.1 as int),
            ) && pos < v.1 <= src@.len(),
            Result::Err(e) => spec_parse_expr(src@, pos as int) is None && e@ is GrammarError,
        },
{
    match parse_expr_elem(src, pos) {
        Err(e) => Err(e),
        Ok((el, p0)) => {
            match parse_expr_tail(src, p0) {
                Err(e) => Err(e),
                Ok((rest, rp)) => {
                    let ghost restv = rest@;
                    let mut elems = rest;
                    elems.insert(0, el);
                    proof {
                        assert(elems@ =~= seq![el] + restv);
                        assert(elems_view(elems@) =~= seq![el@] + elems_view(restv));
                    }
                    Ok((StringExpr(elems), rp))
                },
            }
        },
    }
}

/// A quick command starting at `pos`: an optional `@` echo toggle, an
/// optional quoted display name followed by `-` (and another optional `@`),
/// and the body expression. Yields the display name, the toggle, the body
/// elements, and the end position.
pub open spec fn spec_quick_command(s: Seq<char>, pos: int) -> Option<
    ((Option<Seq<char>>, bool, Seq<StringExprElemV>), int),
> {
    let p0 = spec_skip_ws(s, pos);
    let toggle0 = p0 < s.len() && s[p0] == '@';
    let p = if toggle0 {
        spec_skip_ws(s, p0 + 1)
    } else {
        p0
    };
    if p < s.len() && (s[p] == '"' || s[p] == '!') {
        match spec_scan_string(s, p) {
            Option::None => Option::None,
            Option::Some(v) => {
                let p3 = spec_skip_ws(s, v.1);
                if p3 < s.len() && s[p3] == '-' {
                    let p4a = spec_skip_ws(s, p3 + 1);
                    let toggle1 = p4a < s.len() && s[p4a] == '@';
                    let p4 = if toggle1 {
                        spec_skip_ws(s, p4a + 1)
                    } else {
                        p4a
                    };
                    match spec_parse_expr(s, p4) {
                        Option::None => Option::None,
                        Option::Some(e) => Option::Some(
                            ((Option::Some(v.0), toggle0 || toggle1, e.0), e.1),
                        ),
                    }
                } else {
                    match spec_expr_tail(s, v.1) {
                        Option::None => Option::None,
                        Option::Some(rest) => Option::Some(
                            (
                                (
                                    Option::None,
                                    toggle0,
                                    seq![StringExprElemV::Lit(v.0)] + rest.0,
                                ),
                                rest.1,
                            ),
                        ),
                    }
                }
            },
        }
    } else if p < s.len() && s[p] == '$' {
        match spec_parse_expr(s, p) {
            Option::None => Option::None,
            Option::Some(e) => Option::Some(((Option::None, toggle0, e.0), e.1)),
        }
    } else {
        Option::None
    }
}

/// A quick command: `"text"`, `"display" - "text"`, with an optional `@`
/// echo toggle before the display name or the body. Returns the display
/// name, the echo toggle and the body expression.
fn parse_quick_command_at(src: &Vec<char>, pos: usize) -> (r: Result<
    ((Option<String>, bool, StringExpr), usize),
    CompileError,
>)
    requires
        pos <= src@.len(),
    ensures
        match r {
            Result::Ok(v) => spec_quick_command(src@, pos as int) == Option::Some(
                ((opt_string_view(v.0.0), v.0.1, v.0.2@), v.1 as int),
            ) && pos <= v.1 <= src@.len(),
            Result::Err(e) => spec_quick_command(src@, pos as int) is None && e@ is GrammarError,
        },
{
    let mut p = skip_ws(src, pos);
    let mut toggle: bool = false;
    if p < src.len() && src[p] == '@' {
        toggle = true;
        p = skip_ws(src, p + 1);
    }
    if p < src.len() && (src[p] == '"' || src[p] == '!') {
        match scan_string(src, p) {
            None => Err(CompileError::GrammarError { pos: p }),
            Some((content, p2)) => {
                let p3 = skip_ws(src, p2);
                if p3 < src.len() && src[p3] == '-' {
                    // the string was a display name
                    let mut p4 = skip_ws(src, p3 + 1);
                    if p4 < src.len() && src[p4] == '@' {
                        toggle = true;
                        p4 = skip_ws(src, p4 + 1);
                    }
                    match parse_string_expr_at(src, p4) {
                        Err(e) => Err(e),
                        Ok((expr, p5)) => Ok(
                            ((Some(string_from_chars(&content)), toggle, expr), p5),
                        ),
                    }
                } else {
                    // the string is the first element of the body expression
                    match parse_expr_tail(src, p2) {
                        Err(e) => Err(e),
                        Ok((rest, p5)) => {
                            let ghost restv = rest@;
                            let lit_elem = StringExprElem::String(string_from_chars(&content));
                            let ghost litv = lit_elem@;
                            let mut elems = rest;
                            elems.insert(0, lit_elem);
                            proof {
                                assert(litv == StringExprElemV::Lit(content@));
                                assert(elems_view(elems@) =~= seq![litv] + elems_view(restv));
                            }
                            Ok(((None, toggle, StringExpr(elems)), p5))
                        },
                    }
                }
            },
        }
    } else if p < src.len() && src[p] == '$' {
        match parse_string_expr_at(src, p) {
            Err(e) => Err(e),
            Ok((expr, p2)) => Ok(((None, toggle, expr), p2)),
        }
    } else {
        Err(CompileError::GrammarError { pos: p })
    }
}

/// The items of a shell definition line: bare words and strings, separated
/// by spaces or tabs, ending at the end of the line (or at any character
/// that starts no item).
pub open spec fn spec_shell_items(s: Seq<char>, pos: int) -> Option<(Seq<Seq<char>>, int)>
    decreases s.len() - pos,
    when 0 <= pos <= s.len()
{
    let q = spec_skip_inline_ws(s, pos);
    if q < s.len() && (s[q] == '"' || s[q] == '!') {
        match spec_scan_string(s, q) {
            Option::None => Option::None,
            Option::Some(v) => {
                proof {
                    lemma_skip_inline_ws_range(s, pos);
                    lemma_scan_string_advances(s, q);
                }
                match spec_shell_items(s, v.1) {
                    Option::None => Option::None,
                    Option::Some(rest) => Option::Some((seq![v.0] + rest.0, rest.1)),
                }
            },
        }
    } else if q < s.len() && is_word_char(s[q]) {
        let e = spec_word_end(s, q + 1);
        proof {
            lemma_skip_inline_ws_range(s, pos);
            lemma_word_end_range(s, q + 1);
        }
        match spec_shell_items(s, e) {
            Option::None => Option::None,
            Option::Some(rest) => Option::Some((seq![s.subrange(q, e)] + rest.0, rest.1)),
        }
    } else {
        Option::Some((Seq::empty(), q))
    }
}

/// Scans the space-separated items of a shell definition line.
fn scan_shell_items(src: &Vec<char>, pos: usize) -> (r: Result<(Vec<String>, usize), CompileError>)
    requires
        pos <= src@.len(),
    ensures
        match r {
            Result::Ok(v) => spec_shell_items(src@, pos as int) == Option::Some(
                (v.0.deep_view(), v.1 as int),
            ) && pos <= v.1 <= src@.len(),
            Result::Err(e) => spec_shell_items(src@, pos as int) is None && e@ is GrammarError,
        },
    decreases src@.len() - pos,
{
    let q = skip_inline_ws(src, pos);
    if q < src.len() && (src[q] == '"' || src[q] == '!') {
        match scan_string(src, q) {
            None => Err(CompileError::GrammarError { pos: q }),
            Some((content, e)) => {
                match scan_shell_items(src, e) {
                    Err(er) => Err(er),
                    Ok((rest, rp)) => {
                        let ghost restv = rest.deep_view();
                        let mut rest = rest;
                        rest.insert(0, string_from_chars(&content));
                        proof {
                            assert(rest.deep_view() =~= seq![content@] + restv);
                        }
                        Ok((rest, rp))
                    },
                }
            },
        }
    } else if q < src.len() && word_char(src[q]) {
        match scan_word(src, q) {
            None => Err(CompileError::GrammarError { pos: q }),
            Some(e) => {
                match scan_shell_items(src, e) {
                    Err(er) => Err(er),
                    Ok((rest, rp)) => {
                        let ghost restv = rest.deep_view();
                        let mut rest = rest;
                        rest.insert(0, string_from_range(src, q, e));
                        proof {
                            assert(rest.deep_view() =~= seq![src@.subrange(q as int, e as int)]
                                + restv);
                            assert(spec_word_end(src@, q as int) == spec_word_end(
                                src@,
                                (q + 1) as int,
                            ));
                        }
                        Ok((rest, rp))
                    },
                }
            },
        }
    } else {
        let r: Vec<String> = Vec::new();
        proof {
            assert(r.deep_view() =~= Seq::<Seq<char>>::empty());
        }
        Ok((r, q))
    }
}

/// The shell definition after the `shell` keyword: at least one item, the
/// first being the program, the rest its fixed arguments.
fn parse_shell_def_items(src: &Vec<char>, pos: usize) -> (r: Result<(ShellDef, usize), CompileError>)
    requires
        pos <= src@.len(),
    ensures
        match r {
            Result::Ok(v) => (spec_shell_items(src@, pos as int) matches Option::Some(items)
                && items.0.len() >= 1 && v.0@.name == items.0[0] && v.0@.args
                == items.0.drop_first() && v.1 == items.1) && pos <= v.1 <= src@.len(),
            Result::Err(e) => (spec_shell_items(src@, pos as int) is None || (spec_shell_items(
                src@,
                pos as int,
            ) matches Option::Some(items) && items.0.len() == 0)) && e@ is GrammarError,
        },
{
    match scan_shell_items(src, pos) {
        Err(e) => Err(e),
        Ok((items, end)) => {
            if items.len() == 0 {
                return Err(CompileError::GrammarError { pos: end });
            }
            let ghost itemsv = items.deep_view();
            let mut items = items;
            let name = items.remove(0);
            proof {
                assert(items.deep_view() =~= itemsv.drop_first());
            }
            Ok((ShellDef { name, args: items }, end))
        },
    }
}

/// The value of an `echo` setting after its keyword: `on` or `off`.
pub open spec fn spec_parse_echo_value(s: Seq<char>, pos: int) -> Option<(bool, int)> {
    let q = spec_skip_inline_ws(s, pos);
    match spec_scan_ident(s, q) {
        Option::None => Option::None,
        Option::Some(e) => if s.subrange(q, e) == "on"@ {
            Option::Some((true, e))
        } else if s.subrange(q, e) == "off"@ {
            Option::Some((false, e))
        } else {
            Option::None
        },
    }
}

/// The value of an `echo` setting: `on` or `off`.
fn parse_echo_value_at(src: &Vec<char>, pos: usize) -> (r: Result<(bool, usize), CompileError>)
    requires
        pos <= src@.len(),
    ensures
        match r {
            Result::Ok(v) => spec_parse_echo_value(src@, pos as int) == Option::Some(
                (v.0, v.1 as int),
            ) && pos < v.1 <= src@.len(),
            Result::Err(e) => spec_parse_echo_value(src@, pos as int) is None && e@ is GrammarError,
        },
{
    let q = skip_inline_ws(src, pos);
    match scan_ident(src, q) {
        None => Err(CompileError::GrammarError { pos: q }),
        Some(end) => {
            if range_equals_str(src, q, end, "on") {
                Ok((true, end))
            } else if range_equals_str(src, q, end, "off") {
                Ok((false, end))
            } else {
                Err(CompileError::GrammarError { pos: q })
            }
        },
    }
}

/// One variable definition: a name, optionally `= "default"`.
pub open spec fn spec_var_def(s: Seq<char>, pos: int) -> Option<(VarDefV, int)> {
    let q = spec_skip_ws(s, pos);
    match spec_scan_ident(s, q) {
        Option::None => Option::None,
        Option::Some(e) => {
            let t = spec_skip_inline_ws(s, e);
            if t < s.len() && s[t] == '=' {
                let u = spec_skip_ws(s, t + 1);
                match spec_scan_string(s, u) {
                    Option::None => Option::None,
                    Option::Some(v) => Option::Some(
                        (VarDefV { name: s.subrange(q, e), value: Option::Some(v.0) }, v.1),
                    ),
                }
            } else {
                Option::Some((VarDefV { name: s.subrange(q, e), value: Option::None }, e))
            }
        },
    }
}

/// A scanned variable definition ends strictly after it begins and within
/// the text.
pub proof fn lemma_var_def_advances(s: Seq<char>, pos: int)
    requires
        0 <= pos <= s.len(),
    ensures
        spec_var_def(s, pos) matches Option::Some(v) ==> pos < v.1 <= s.len(),
{
    lemma_skip_ws_range(s, pos);
    let q = spec_skip_ws(s, pos);
    if 0 <= q < s.len() && is_ident_start_char(s[q]) {
        lemma_ident_end_range(s, q + 1);
        let e = spec_ident_end(s, q + 1);
        lemma_skip_inline_ws_range(s, e);
        let t = spec_skip_inline_ws(s, e);
        if t < s.len() && s[t] == '=' {
            lemma_skip_ws_range(s, t + 1);
            lemma_scan_string_advances(s, spec_skip_ws(s, t + 1));
        }
    }
}

/// The comma-joined tail of a `vars` clause after a definition ending at `p`.
pub open spec fn spec_vars_tail(s: Seq<char>, p: int) -> Option<(Seq<VarDefV>, int)>
    decreases s.len() - p,
    when 0 <= p <= s.len()
{
    let q = spec_skip_ws(s, p);
    if q < s.len() && s[q] == ',' {
        match spec_var_def(s, q + 1) {
            Option::None => Option::None,
            Option::Some(v) => {
                proof {
                    lemma_skip_ws_range(s, p);
                    lemma_var_def_advances(s, q + 1);
                }
                match spec_vars_tail(s, v.1) {
                    Option::None => Option::None,
                    Option::Some(rest) => Option::Some((seq![v.0] + rest.0, rest.1)),
                }
            },
        }
    } else {
        Option::Some((Seq::empty(), p))
    }
}

/// A whole `vars` clause: comma-separated variable definitions, in prompt
/// order.
pub open spec fn spec_vars_def(s: Seq<char>, pos: int) -> Option<(Seq<VarDefV>, int)> {
    match spec_var_def(s, pos) {
        Option::None => Option::None,
        Option::Some(v) => match spec_vars_tail(s, v.1) {
            Option::None => Option::None,
            Option::Some(rest) => Option::Some((seq![v.0] + rest.0, rest.1)),
        },
    }
}

/// The view of a list of variable definitions.
pub open spec fn vars_view(v: Seq<VarDef>) -> Seq<VarDefV> {
    v.map_values(|d: VarDef| d@)
}

/// One variable definition: a name with an optional quoted default.
fn parse_var_def_at(src: &Vec<char>, pos: usize) -> (r: Result<(VarDef, usize), CompileError>)
    requires
        pos <= src@.len(),
    ensures
        match r {
            Result::Ok(v) => spec_var_def(src@, pos as int) == Option::Some((v.0@, v.1 as int))
                && pos < v.1 <= src@.len(),
            Result::Err(e) => spec_var_def(src@, pos as int) is None && e@ is GrammarError,
        },
{
    proof {
        lemma_var_def_advances(src@, pos as int);
    }
    let q = skip_ws(src, pos);
    match scan_ident(src, q) {
        None => Err(CompileError::GrammarError { pos: q }),
        Some(end) => {
            let name = string_from_range(src, q, end);
            let t = skip_inline_ws(src, end);
            if t < src.len() && src[t] == '=' {
                let u = skip_ws(src, t + 1);
                match scan_string(src, u) {
                    None => Err(CompileError::GrammarError { pos: u }),
                    Some((content, e)) => Ok(
                        (VarDef { name, value: Some(string_from_chars(&content)) }, e),
                    ),
                }
            } else {
                Ok((VarDef { name, value: None }, end))
            }
        },
    }
}

/// The comma-joined tail of a `vars` clause.
fn parse_vars_tail(src: &Vec<char>, pos: usize) -> (r: Result<(Vec<VarDef>, usize), CompileError>)
    requires
        pos <= src@.len(),
    ensures
        match r {
            Result::Ok(v) => spec_vars_tail(src@, pos as int) == Option::Some(
                (vars_view(v.0@), v.1 as int),
            ) && pos <= v.1 <= src@.len(),
            Result::Err(e) => spec_vars_tail(src@, pos as int) is None && e@ is GrammarError,
        },
    decreases src@.len() - pos,
{
    let q = skip_ws(src, pos);
    if q < src.len() && src[q] == ',' {
        match parse_var_def_at(src, q + 1) {
            Err(e) => Err(e),
            Ok((vd, p2)) => {
                match parse_vars_tail(src, p2) {
                    Err(er) => Err(er),
                    Ok((rest, rp)) => {
                        let ghost restv = rest@;
                        let ghost vdv = vd@;
                        let mut rest = rest;
                        rest.insert(0, vd);
                        proof {
                            assert(vars_view(rest@) =~= seq![vdv] + vars_view(restv));
                        }
                        Ok((rest, rp))
                    },
                }
            },
        }
    } else {
        let r: Vec<VarDef> = Vec::new();
        proof {
            assert(vars_view(r@) =~= Seq::<VarDefV>::empty());
        }
        Ok((r, pos))
    }
}

/// A `vars` clause: comma-separated variable definitions, in prompt order.
fn parse_vars_def_at(src: &Vec<char>, pos: usize) -> (r: Result<
    (Vec<VarDef>, usize),
    CompileError,
>)
    requires
        pos <= src@.len(),
    ensures
        match r {
            Result::Ok(v) => spec_vars_def(src@, pos as int) == Option::Some(
                (vars_view(v.0@), v.1 as int),
            ) && pos < v.1 <= src@.len(),
            Result::Err(e) => spec_vars_def(src@, pos as int) is None && e@ is GrammarError,
        },
{
    match parse_var_def_at(src, pos) {
        Err(e) => Err(e),
        Ok((first, p0)) => {
            match parse_vars_tail(src, p0) {
                Err(e) => Err(e),
                Ok((rest, rp)) => {
                    let ghost restv = rest@;
                    let ghost firstv = first@;
                    let mut vars = rest;
                    vars.insert(0, first);
                    proof {
                        assert(vars_view(vars@) =~= seq![firstv] + vars_view(restv));
                    }
                    Ok((vars, rp))
                },
            }
        },
    }
}

/// One setting name: `repeat` or `ignore_result`.
pub open spec fn spec_one_setting(s: Seq<char>, pos: int) -> Option<(CommandSetting, int)> {
    let q = spec_skip_ws(s, pos);
    match spec_scan_ident(s, q) {
        Option::None => Option::None,
        Option::Some(e) => if s.subrange(q, e) == "repeat"@ {
            Option::Some((CommandSetting::Repeat, e))
        } else if s.subrange(q, e) == "ignore_result"@ {
            Option::Some((CommandSetting::IgnoreResult, e))
        } else {
            Option::None
        },
    }
}

/// A scanned setting name ends strictly after it begins and within the text.
pub proof fn lemma_one_setting_advances(s: Seq<char>, pos: int)
    requires
        0 <= pos <= s.len(),
    ensures
        spec_one_setting(s, pos) matches Option::Some(v) ==> pos < v.1 <= s.len(),
{
    lemma_skip_ws_range(s, pos);
    let q = spec_skip_ws(s, pos);
    if 0 <= q < s.len() && is_ident_start_char(s[q]) {
        lemma_ident_end_range(s, q + 1);
    }
}

/// The comma-joined tail of a `set` clause after a setting ending at `p`.
pub open spec fn spec_settings_tail(s: Seq<char>, p: int) -> Option<(Seq<CommandSetting>, int)>
    decreases s.len() - p,
    when 0 <= p <= s.len()
{
    let q = spec_skip_ws(s, p);
    if q < s.len() && s[q] == ',' {
        match spec_one_setting(s, q + 1) {
            Option::None => Option::None,
            Option::Some(v) => {
                proof {
                    lemma_skip_ws_range(s, p);
                    lemma_one_setting_advances(s, q + 1);
                }
                match spec_settings_tail(s, v.1) {
                    Option::None => Option::None,
                    Option::Some(rest) => Option::Some((seq![v.0] + rest.0, rest.1)),
                }
            },
        }
    } else {
        Option::Some((Seq::empty(), p))
    }
}

/// A whole `set` clause: comma-separated setting names.
pub open spec fn spec_cmd_settings(s: Seq<char>, pos: int) -> Option<(Seq<CommandSetting>, int)> {
    match spec_one_setting(s, pos) {
        Option::None => Option::None,
        Option::Some(v) => match spec_settings_tail(s, v.1) {
            Option::None => Option::None,
            Option::Some(rest) => Option::Some((seq![v.0] + rest.0, rest.1)),
        },
    }
}

fn parse_one_setting_at(src: &Vec<char>, pos: usize) -> (r: Result<
    (CommandSetting, usize),
    CompileError,
>)
    requires
        pos <= src@.len(),
    ensures
        match r {
            Result::Ok(v) => spec_one_setting(src@, pos as int) == Option::Some(
                (v.0, v.1 as int),
            ) && pos < v.1 <= src@.len(),
            Result::Err(e) => spec_one_setting(src@, pos as int) is None && e@ is GrammarError,
        },
{
    proof {
        lemma_one_setting_advances(src@, pos as int);
    }
    let q = skip_ws(src, pos);
    match scan_ident(src, q) {
        None => Err(CompileError::GrammarError { pos: q }),
        Some(end) => {
            if range_equals_str(src, q, end, "repeat") {
                Ok((CommandSetting::Repeat, end))
            } else if range_equals_str(src, q, end, "ignore_result") {
                Ok((CommandSetting::IgnoreResult, end))
            } else {
                Err(CompileError::GrammarError { pos: q })
            }
        },
    }
}

/// The comma-joined tail of a `set` clause.
fn parse_settings_tail(src: &Vec<char>, pos: usize) -> (r: Result<
    (Vec<CommandSetting>, usize),
    CompileError,
>)
    requires
        pos <= src@.len(),
    ensures
        match r {
            Result::Ok(v) => spec_settings_tail(src@, pos as int) == Option::Some(
                (v.0@, v.1 as int),
            ) && pos <= v.1 <= src@.len(),
            Result::Err(e) => spec_settings_tail(src@, pos as int) is None && e@ is GrammarError,
        },
    decreases src@.len() - pos,
{
    let q = skip_ws(src, pos);
    if q < src.len() && src[q] == ',' {
        match parse_one_setting_at(src, q + 1) {
            Err(e) => Err(e),
            Ok((st, p2)) => {
                match parse_settings_tail(src, p2) {
                    Err(er) => Err(er),
                    Ok((rest, rp)) => {
                        let ghost restv = rest@;
                        let mut rest = rest;
                        rest.insert(0, st);
                        proof {
                            assert(rest@ =~= seq![st] + restv);
                        }
                        Ok((rest, rp))
                    },
                }
            },
        }
    } else {
        let r: Vec<CommandSetting> = Vec::new();
        proof {
            assert(r@ =~= Seq::<CommandSetting>::empty());
        }
        Ok((r, pos))
    }
}

/// A `set` clause: comma-separated setting names (`repeat`,
/// `ignore_result`).
fn parse_cmd_settings_at(src: &Vec<char>, pos: usize) -> (r: Result<
    (Vec<CommandSetting>, usize),
    CompileError,
>)
    requires
        pos <= src@.len(),
    ensures
        match r {
            Result::Ok(v) => spec_cmd_settings(src@, pos as int) == Option::Some(
                (v.0@, v.1 as int),
            ) && pos < v.1 <= src@.len(),
            Result::Err(e) => spec_cmd_settings(src@, pos as int) is None && e@ is GrammarError,
        },
{
    match parse_one_setting_at(src, pos) {
        Err(e) => Err(e),
        Ok((first, p0)) => {
            match parse_settings_tail(src, p0) {
                Err(e) => Err(e),
                Ok((rest, rp)) => {
                    let ghost restv = rest@;
                    let mut settings = rest;
                    settings.insert(0, first);
                    proof {
                        assert(settings@ =~= seq![first] + restv);
                    }
                    Ok((settings, rp))
                },
            }
        },
    }
}

/// A scanned expression tail stays within the text.
pub proof fn lemma_expr_tail_range(s: Seq<char>, p: int)
    requires
        0 <= p <= s.len(),
    ensures
        spec_expr_tail(s, p) matches Option::Some(v) ==> p <= v.1 <= s.len(),
    decreases s.len() - p,
{
    lemma_skip_ws_range(s, p);
    let q = spec_skip_ws(s, p);
    if q < s.len() && s[q] == '+' {
        lemma_skip_ws_range(s, q + 1);
        let q2 = spec_skip_ws(s, q + 1);
        lemma_scan_elem_advances(s, q2);
        match spec_scan_elem(s, q2) {
            Option::None => {},
            Option::Some(v) => {
                lemma_expr_tail_range(s, v.1);
            },
        }
    }
}

/// A scanned expression ends strictly after it begins and within the text.
pub proof fn lemma_parse_expr_range(s: Seq<char>, p: int)
    requires
        0 <= p <= s.len(),
    ensures
        spec_parse_expr(s, p) matches Option::Some(v) ==> p < v.1 <= s.len(),
{
    lemma_scan_elem_advances(s, p);
    match spec_scan_elem(s, p) {
        Option::None => {},
        Option::Some(v) => {
            lemma_expr_tail_range(s, v.1);
        },
    }
}

/// A scanned quick command ends strictly after it begins and within the
/// text.
pub proof fn lemma_quick_command_range(s: Seq<char>, pos: int)
    requires
        0 <= pos <= s.len(),
    ensures
        spec_quick_command(s, pos) matches Option::Some(v) ==> pos < v.1 <= s.len(),
{
    lemma_skip_ws_range(s, pos);
    let p0 = spec_skip_ws(s, pos);
    let toggle0 = p0 < s.len() && s[p0] == '@';
    if toggle0 {
        lemma_skip_ws_range(s, p0 + 1);
    }
    let p = if toggle0 {
        spec_skip_ws(s, p0 + 1)
    } else {
        p0
    };
    if p < s.len() && (s[p] == '"' || s[p] == '!') {
        lemma_scan_string_advances(s, p);
        match spec_scan_string(s, p) {
            Option::None => {},
            Option::Some(v) => {
                lemma_skip_ws_range(s, v.1);
                let p3 = spec_skip_ws(s, v.1);
                if p3 < s.len() && s[p3] == '-' {
                    lemma_skip_ws_range(s, p3 + 1);
                    let p4a = spec_skip_ws(s, p3 + 1);
                    let toggle1 = p4a < s.len() && s[p4a] == '@';
                    if toggle1 {
                        lemma_skip_ws_range(s, p4a + 1);
                    }
                    let p4 = if toggle1 {
                        spec_skip_ws(s, p4a + 1)
                    } else {
                        p4a
                    };
                    lemma_parse_expr_range(s, p4);
                } else {
                    lemma_expr_tail_range(s, v.1);
                }
            },
        }
    } else if p < s.len() && s[p] == '$' {
        lemma_parse_expr_range(s, p);
    }
}

/// A scanned settings tail stays within the text.
pub proof fn lemma_settings_tail_range(s: Seq<char>, p: int)
    requires
        0 <= p <= s.len(),
    ensures
        spec_settings_tail(s, p) matches Option::Some(v) ==> p <= v.1 <= s.len(),
    decreases s.len() - p,
{
    lemma_skip_ws_range(s, p);
    let q = spec_skip_ws(s, p);
    if q < s.len() && s[q] == ',' {
        lemma_one_setting_advances(s, q + 1);
        match spec_one_setting(s, q + 1) {
            Option::None => {},
            Option::Some(v) => {
                lemma_settings_tail_range(s, v.1);
            },
        }
    }
}

/// A scanned `set` clause ends strictly after it begins and within the text.
pub proof fn lemma_cmd_settings_range(s: Seq<char>, pos: int)
    requires
        0 <= pos <= s.len(),
    ensures
        spec_cmd_settings(s, pos) matches Option::Some(v) ==> pos < v.1 <= s.len(),
{
    lemma_one_setting_advances(s, pos);
    match spec_one_setting(s, pos) {
        Option::None => {},
        Option::Some(v) => {
            lemma_settings_tail_range(s, v.1);
        },
    }
}

/// A scanned `vars` tail stays within the text.
pub proof fn lemma_vars_tail_range(s: Seq<char>, p: int)
    requires
        0 <= p <= s.len(),
    ensures
        spec_vars_tail(s, p) matches Option::Some(v) ==> p <= v.1 <= s.len(),
    decreases s.len() - p,
{
    lemma_skip_ws_range(s, p);
    let q = spec_skip_ws(s, p);
    if q < s.len() && s[q] == ',' {
        lemma_var_def_advances(s, q + 1);
        match spec_var_def(s, q + 1) {
            Option::None => {},
            Option::Some(v) => {
                lemma_vars_tail_range(s, v.1);
            },
        }
    }
}

/// A scanned `vars` clause ends strictly after it begins and within the
/// text.
pub proof fn lemma_vars_def_range(s: Seq<char>, pos: int)
    requires
        0 <= pos <= s.len(),
    ensures
        spec_vars_def(s, pos) matches Option::Some(v) ==> pos < v.1 <= s.len(),
{
    lemma_var_def_advances(s, pos);
    match spec_var_def(s, pos) {
        Option::None => {},
        Option::Some(v) => {
            lemma_vars_tail_range(s, v.1);
        },
    }
}

/// Scanned shell items stay within the text.
pub proof fn lemma_shell_items_range(s: Seq<char>, pos: int)
    requires
        0 <= pos <= s.len(),
    ensures
        spec_shell_items(s, pos) matches Option::Some(v) ==> pos <= v.1 <= s.len(),
    decreases s.len() - pos,
{
    lemma_skip_inline_ws_range(s, pos);
    let q = spec_skip_inline_ws(s, pos);
    if q < s.len() && (s[q] == '"' || s[q] == '!') {
        lemma_scan_string_advances(s, q);
        match spec_scan_string(s, q) {
            Option::None => {},
            Option::Some(v) => {
                lemma_shell_items_range(s, v.1);
            },
        }
    } else if q < s.len() && is_word_char(s[q]) {
        lemma_word_end_range(s, q + 1);
        lemma_shell_items_range(s, spec_word_end(s, q + 1));
    }
}

pub open spec fn opt_settings_view(o: Option<Vec<CommandSetting>>) -> Option<Seq<CommandSetting>> {
    match o {
        Option::Some(v) => Option::Some(v@),
        Option::None => Option::None,
    }
}

pub open spec fn opt_vars_view(o: Option<Vec<VarDef>>) -> Option<Seq<VarDefV>> {
    match o {
        Option::Some(v) => Option::Some(vars_view(v@)),
        Option::None => Option::None,
    }
}

/// The clauses and body of a `cmd { ... }` block after its opening brace,
/// with `st`, `vr` and `sh` the clauses already seen (a later clause of the
/// same kind overrides an earlier one): further `set`, `vars` and `shell`
/// clauses, then the body as a quick command and the closing brace.
pub open spec fn spec_anon_body(
    s: Seq<char>,
    p: int,
    st: Option<Seq<CommandSetting>>,
    vr: Option<Seq<VarDefV>>,
    sh: Option<ShellDefV>,
) -> Option<(CommandV, int)>
    decreases s.len() - p,
    when 0 <= p <= s.len()
{
    let q = spec_skip_ws(s, p);
    if q < s.len() && is_ident_start_char(s[q]) {
        match spec_scan_ident(s, q) {
            Option::None => Option::None,
            Option::Some(end) => if s.subrange(q, end) == "set"@ {
                match spec_cmd_settings(s, end) {
                    Option::None => Option::None,
                    Option::Some(v) => {
                        proof {
                            lemma_skip_ws_range(s, p);
                            lemma_ident_end_range(s, q + 1);
                            lemma_cmd_settings_range(s, end);
                        }
                        spec_anon_body(s, v.1, Option::Some(v.0), vr, sh)
                    },
                }
            } else if s.subrange(q, end) == "vars"@ {
                match spec_vars_def(s, end) {
                    Option::None => Option::None,
                    Option::Some(v) => {
                        proof {
                            lemma_skip_ws_range(s, p);
                            lemma_ident_end_range(s, q + 1);
                            lemma_vars_def_range(s, end);
                        }
                        spec_anon_body(s, v.1, st, Option::Some(v.0), sh)
                    },
                }
            } else if s.subrange(q, end) == "shell"@ {
                match spec_shell_items(s, end) {
                    Option::None => Option::None,
                    Option::Some(v) => if v.0.len() == 0 {
                        Option::None
                    } else {
                        proof {
                            lemma_skip_ws_range(s, p);
                            lemma_ident_end_range(s, q + 1);
                            lemma_shell_items_range(s, end);
                        }
                        spec_anon_body(
                            s,
                            v.1,
                            st,
                            vr,
                            Option::Some(ShellDefV { name: v.0[0], args: v.0.drop_first() }),
                        )
                    },
                }
            } else {
                Option::None
            },
        }
    } else {
        match spec_quick_command(s, q) {
            Option::None => Option::None,
            Option::Some(v) => {
                proof {
                    lemma_skip_ws_range(s, p);
                    lemma_quick_command_range(s, q);
                }
                let e3 = spec_skip_ws(s, v.1);
                if e3 < s.len() && s[e3] == '}' {
                    Option::Some(
                        (
                            CommandV {
                                exec_str: v.0.2,
                                settings: match st {
                                    Option::Some(x) => x,
                                    Option::None => Seq::empty(),
                                },
                                name: v.0.0,
                                shell: sh,
                                env_vars: match vr {
                                    Option::Some(x) => x,
                                    Option::None => Seq::empty(),
                                },
                                toggle_echo_setting: v.0.1,
                            },
                            e3 + 1,
                        ),
                    )
                } else {
                    Option::None
                }
            },
        }
    }
}

/// A scanned command block body stays within the text.
pub proof fn lemma_anon_body_range(
    s: Seq<char>,
    p: int,
    st: Option<Seq<CommandSetting>>,
    vr: Option<Seq<VarDefV>>,
    sh: Option<ShellDefV>,
)
    requires
        0 <= p <= s.len(),
    ensures
        spec_anon_body(s, p, st, vr, sh) matches Option::Some(v) ==> p < v.1 <= s.len(),
    decreases s.len() - p,
{
    lemma_skip_ws_range(s, p);
    let q = spec_skip_ws(s, p);
    if q < s.len() && is_ident_start_char(s[q]) {
        lemma_ident_end_range(s, q + 1);
        match spec_scan_ident(s, q) {
            Option::None => {},
            Option::Some(end) => {
                if s.subrange(q, end) == "set"@ {
                    lemma_cmd_settings_range(s, end);
                    match spec_cmd_settings(s, end) {
                        Option::None => {},
                        Option::Some(v) => {
                            lemma_anon_body_range(s, v.1, Option::Some(v.0), vr, sh);
                        },
                    }
                } else if s.subrange(q, end) == "vars"@ {
                    lemma_vars_def_range(s, end);
                    match spec_vars_def(s, end) {
                        Option::None => {},
                        Option::Some(v) => {
                            lemma_anon_body_range(s, v.1, st, Option::Some(v.0), sh);
                        },
                    }
                } else if s.subrange(q, end) == "shell"@ {
                    lemma_shell_items_range(s, end);
                    match spec_shell_items(s, end) {
                        Option::None => {},
                        Option::Some(v) => {
                            if v.0.len() > 0 {
                                lemma_anon_body_range(
                                    s,
                                    v.1,
                                    st,
                                    vr,
                                    Option::Some(
                                        ShellDefV { name: v.0[0], args: v.0.drop_first() },
                                    ),
                                );
                            }
                        },
                    }
                }
            },
        }
    } else {
        lemma_quick_command_range(s, q);
        match spec_quick_command(s, q) {
            Option::None => {},
            Option::Some(v) => {
                lemma_skip_ws_range(s, v.1);
            },
        }
    }
}

/// A scanned command block ends strictly after it begins and within the
/// text.
pub proof fn lemma_anon_command_range(s: Seq<char>, pos: int)
    requires
        0 <= pos <= s.len(),
    ensures
        spec_anon_command(s, pos) matches Option::Some(v) ==> pos < v.1 <= s.len(),
{
    lemma_skip_ws_range(s, pos);
    let p0 = spec_skip_ws(s, pos);
    if p0 < s.len() && s[p0] == '{' {
        lemma_anon_body_range(s, p0 + 1, Option::None, Option::None, Option::None);
    }
}

/// A whole `cmd { ... }` block starting at `pos`.
pub open spec fn spec_anon_command(s: Seq<char>, pos: int) -> Option<(CommandV, int)> {
    let p0 = spec_skip_ws(s, pos);
    if p0 < s.len() && s[p0] == '{' {
        spec_anon_body(s, p0 + 1, Option::None, Option::None, Option::None)
    } else {
        Option::None
    }
}

/// A `cmd { ... }` block: optional `vars`, `set` and `shell` clauses (a
/// later clause of the same kind overrides an earlier one), followed by the
/// body as a quick command.
fn parse_anon_command_at(src: &Vec<char>, pos: usize) -> (r: Result<(Command, usize), CompileError>)
    requires
        pos <= src@.len(),
    ensures
        match r {
            Result::Ok(v) => spec_anon_command(src@, pos as int) == Option::Some(
                (v.0@, v.1 as int),
            ) && pos <= v.1 <= src@.len(),
            Result::Err(e) => spec_anon_command(src@, pos as int) is None && e@ is GrammarError,
        },
{
    let ghost srcv = src@;
    let p0 = skip_ws(src, pos);
    if !(p0 < src.len() && src[p0] == '{') {
        return Err(CompileError::GrammarError { pos: p0 });
    }
    let mut p: usize = p0 + 1;
    let mut cmd_settings: Option<Vec<CommandSetting>> = None;
    let mut vars: Option<Vec<VarDef>> = None;
    let mut shell: Option<ShellDef> = None;
    loop
        invariant
            pos <= p <= srcv.len(),
            srcv == src@,
            spec_anon_body(
                srcv,
                p as int,
                opt_settings_view(cmd_settings),
                opt_vars_view(vars),
                opt_shell_view(shell),
            ) == spec_anon_command(srcv, pos as int),
        decreases srcv.len() - p,
    {
        let q = skip_ws(src, p);
        if q < src.len() && ident_start_char(src[q]) {
            match scan_ident(src, q) {
                None => {
                    return Err(CompileError::GrammarError { pos: q });
                },
                Some(end) => {
                    if range_equals_str(src, q, end, "set") {
                        match parse_cmd_settings_at(src, end) {
                            Err(e) => {
                                return Err(e);
                            },
                            Ok((s, e2)) => {
                                cmd_settings = Some(s);
                                p = e2;
                            },
                        }
                    } else if range_equals_str(src, q, end, "vars") {
                        match parse_vars_def_at(src, end) {
                            Err(e) => {
                                return Err(e);
                            },
                            Ok((v, e2)) => {
                                vars = Some(v);
                                p = e2;
                            },
                        }
                    } else if range_equals_str(src, q, end, "shell") {
                        match parse_shell_def_items(src, end) {
                            Err(e) => {
                                return Err(e);
                            },
                            Ok((sd, e2)) => {
                                shell = Some(sd);
                                p = e2;
                            },
                        }
                    } else {
                        return Err(CompileError::GrammarError { pos: q });
                    }
                },
            }
        } else {
            // the body: a quick command, then the closing brace
            match parse_quick_command_at(src, q) {
                Err(e) => {
                    return Err(e);
                },
                Ok(((name, toggle, expr), e2)) => {
                    let e3 = skip_ws(src, e2);
                    if e3 < src.len() && src[e3] == '}' {
                        let ghost stv = opt_settings_view(cmd_settings);
                        let ghost vrv = opt_vars_view(vars);
                        let cmd = Command {
                            exec_str: expr,
                            settings: match cmd_settings {
                                Some(s) => s,
                                None => Vec::new(),
                            },
                            name,
                            shell,
                            env_vars: match vars {
                                Some(v) => v,
                                None => Vec::new(),
                            },
                            toggle_echo_setting: toggle,
                        };
                        proof {
                            assert(cmd@.settings =~= (match stv {
                                Option::Some(x) => x,
                                Option::None => Seq::empty(),
                            }));
                            assert(cmd@.env_vars =~= (match vrv {
                                Option::Some(x) => x,
                                Option::None => Seq::empty(),
                            }));
                        }
                        return Ok((cmd, e3 + 1));
                    } else {
                        return Err(CompileError::GrammarError { pos: e3 });
                    }
                },
            }
        }
    }
}

/// The target of one entry: a `cmd { ... }` block, a quick command, or a
/// bare submenu name.
pub open spec fn spec_target(s: Seq<char>, pos: int) -> Option<(RawTargetV, int)> {
    let p = spec_skip_inline_ws(s, pos);
    if p < s.len() && (s[p] == '"' || s[p] == '!' || s[p] == '@' || s[p] == '$') {
        match spec_quick_command(s, p) {
            Option::None => Option::None,
            Option::Some(v) => Option::Some(
                (
                    RawTargetV::Cmd(
                        CommandV {
                            exec_str: v.0.2,
                            settings: Seq::empty(),
                            name: v.0.0,
                            shell: Option::None,
                            env_vars: Seq::empty(),
                            toggle_echo_setting: v.0.1,
                        },
                    ),
                    v.1,
                ),
            ),
        }
    } else {
        match spec_scan_ident(s, p) {
            Option::None => Option::None,
            Option::Some(end) => {
                let brace = spec_skip_ws(s, end);
                if s.subrange(p, end) == "cmd"@ && brace < s.len() && s[brace] == '{' {
                    match spec_anon_command(s, end) {
                        Option::None => Option::None,
                        Option::Some(v) => Option::Some((RawTargetV::Cmd(v.0), v.1)),
                    }
                } else {
                    Option::Some((RawTargetV::Submenu(s.subrange(p, end)), end))
                }
            },
        }
    }
}

/// The target of one entry: a `cmd { ... }` block, a quick command, or a
/// bare submenu name.
fn parse_target_at(src: &Vec<char>, pos: usize) -> (r: Result<(RawTarget, usize), CompileError>)
    requires
        pos <= src@.len(),
    ensures
        match r {
            Result::Ok(v) => spec_target(src@, pos as int) == Option::Some((v.0@, v.1 as int))
                && pos <= v.1 <= src@.len(),
            Result::Err(e) => spec_target(src@, pos as int) is None && e@ is GrammarError,
        },
{
    let p = skip_inline_ws(src, pos);
    if p < src.len() && (src[p] == '"' || src[p] == '!' || src[p] == '@' || src[p] == '$') {
        match parse_quick_command_at(src, p) {
            Err(e) => Err(e),
            Ok(((name, toggle, expr), e2)) => {
                let cmd = Command {
                    exec_str: expr,
                    settings: Vec::new(),
                    name,
                    shell: None,
                    env_vars: Vec::new(),
                    toggle_echo_setting: toggle,
                };
                proof {
                    assert(cmd@.settings =~= Seq::<CommandSetting>::empty());
                    assert(cmd@.env_vars =~= Seq::<VarDefV>::empty());
                }
                Ok((RawTarget::Cmd(cmd), e2))
            },
        }
    } else {
        match scan_ident(src, p) {
            None => Err(CompileError::GrammarError { pos: p }),
            Some(end) => {
                let brace = skip_ws(src, end);
                if range_equals_str(src, p, end, "cmd") && brace < src.len() && src[brace] == '{' {
                    match parse_anon_command_at(src, end) {
                        Err(e) => Err(e),
                        Ok((cmd, e2)) => Ok((RawTarget::Cmd(cmd), e2)),
                    }
                } else {
                    Ok((RawTarget::Submenu(string_from_range(src, p, end)), end))
                }
            },
        }
    }
}

/// A scanned target stays within the text.
pub proof fn lemma_target_range(s: Seq<char>, pos: int)
    requires
        0 <= pos <= s.len(),
    ensures
        spec_target(s, pos) matches Option::Some(v) ==> pos <= v.1 <= s.len(),
{
    lemma_skip_inline_ws_range(s, pos);
    let p = spec_skip_inline_ws(s, pos);
    if p < s.len() && (s[p] == '"' || s[p] == '!' || s[p] == '@' || s[p] == '$') {
        lemma_quick_command_range(s, p);
    } else {
        match spec_scan_ident(s, p) {
            Option::None => {},
            Option::Some(end) => {
                lemma_ident_end_range(s, p + 1);
                lemma_anon_command_range(s, end);
            },
        }
    }
}

/// A scanned entry ends strictly after it begins and within the text.
pub proof fn lemma_entry_range(s: Seq<char>, pos: int)
    requires
        0 <= pos <= s.len(),
    ensures
        spec_entry(s, pos) matches Option::Some(v) ==> pos < v.1 <= s.len(),
{
    match spec_scan_keys(s, pos) {
        Option::None => {},
        Option::Some(kend) => {
            lemma_key_end_range(s, pos + 1);
            lemma_skip_inline_ws_range(s, kend);
            let t = spec_skip_inline_ws(s, kend);
            if t < s.len() && s[t] == ':' {
                lemma_target_range(s, t + 1);
            }
        },
    }
}

/// One entry line: a non-empty key path, a colon, and a target.
pub open spec fn spec_entry(s: Seq<char>, pos: int) -> Option<(RawEntryV, int)> {
    match spec_scan_keys(s, pos) {
        Option::None => Option::None,
        Option::Some(kend) => {
            let t = spec_skip_inline_ws(s, kend);
            if t < s.len() && s[t] == ':' {
                match spec_target(s, t + 1) {
                    Option::None => Option::None,
                    Option::Some(v) => Option::Some(
                        (RawEntryV { keys: s.subrange(pos, kend), target: v.0 }, v.1),
                    ),
                }
            } else {
                Option::None
            }
        },
    }
}

/// One entry line: a non-empty key path, a colon, and a target.
fn parse_entry_at(src: &Vec<char>, pos: usize) -> (r: Result<(RawEntry, usize), CompileError>)
    requires
        pos <= src@.len(),
    ensures
        match r {
            Result::Ok(v) => spec_entry(src@, pos as int) == Option::Some((v.0@, v.1 as int))
                && pos < v.1 <= src@.len() && v.0.keys@.len() > 0,
            Result::Err(e) => spec_entry(src@, pos as int) is None && e@ is GrammarError,
        },
{
    match scan_keys(src, pos) {
        None => Err(CompileError::GrammarError { pos }),
        Some(kend) => {
            let keys = copy_range(src, pos, kend);
            let t = skip_inline_ws(src, kend);
            if t < src.len() && src[t] == ':' {
                match parse_target_at(src, t + 1) {
                    Err(e) => Err(e),
                    Ok((target, end)) => Ok((RawEntry { keys, target }, end)),
                }
            } else {
                Err(CompileError::GrammarError { pos: t })
            }
        },
    }
}

/// The view of a list of raw entries.
pub open spec fn raw_entries_view(v: Seq<RawEntry>) -> Seq<RawEntryV> {
    v.map_values(|e: RawEntry| e@)
}

/// The entry lines of a menu body up to and including the closing brace.
pub open spec fn spec_menu_entries(s: Seq<char>, p: int) -> Option<(Seq<RawEntryV>, int)>
    decreases s.len() - p,
    when 0 <= p <= s.len()
{
    let q = spec_skip_ws(s, p);
    if q < s.len() && s[q] == '}' {
        Option::Some((Seq::empty(), q + 1))
    } else {
        match spec_entry(s, q) {
            Option::None => Option::None,
            Option::Some(v) => {
                proof {
                    lemma_skip_ws_range(s, p);
                    lemma_entry_range(s, q);
                }
                match spec_menu_entries(s, v.1) {
                    Option::None => Option::None,
                    Option::Some(rest) => Option::Some((seq![v.0] + rest.0, rest.1)),
                }
            },
        }
    }
}

/// A `menu` declaration after the `menu` keyword, its display name already
/// scanned: the menu's name and a braced list of entries.
pub open spec fn spec_menu_decl_named(
    s: Seq<char>,
    p: int,
    display: Option<Seq<char>>,
) -> Option<(RawMenuDeclV, int)> {
    match spec_scan_ident(s, p) {
        Option::None => Option::None,
        Option::Some(end) => {
            let b = spec_skip_ws(s, end);
            if b < s.len() && s[b] == '{' {
                match spec_menu_entries(s, b + 1) {
                    Option::None => Option::None,
                    Option::Some(v) => Option::Some(
                        (
                            RawMenuDeclV {
                                name: s.subrange(p, end),
                                display_name: display,
                                entries: v.0,
                            },
                            v.1,
                        ),
                    ),
                }
            } else {
                Option::None
            }
        },
    }
}

/// A `menu` declaration after the `menu` keyword: an optional quoted display
/// name, the menu's name, and a braced list of entries.
pub open spec fn spec_menu_decl(s: Seq<char>, pos: int) -> Option<(RawMenuDeclV, int)> {
    let p1 = spec_skip_ws(s, pos);
    if p1 < s.len() && (s[p1] == '"' || s[p1] == '!') {
        match spec_scan_string(s, p1) {
            Option::None => Option::None,
            Option::Some(d) => spec_menu_decl_named(
                s,
                spec_skip_ws(s, d.1),
                Option::Some(d.0),
            ),
        }
    } else {
        spec_menu_decl_named(s, p1, Option::None)
    }
}

/// The entry lines of a menu body, up to the closing brace.
fn parse_menu_entries(src: &Vec<char>, pos: usize) -> (r: Result<
    (Vec<RawEntry>, usize),
    CompileError,
>)
    requires
        pos <= src@.len(),
    ensures
        match r {
            Result::Ok(v) => spec_menu_entries(src@, pos as int) == Option::Some(
                (raw_entries_view(v.0@), v.1 as int),
            ) && pos <= v.1 <= src@.len() && (forall|k: int|
                0 <= k < v.0@.len() ==> (#[trigger] v.0@[k]).keys@.len() > 0),
            Result::Err(e) => spec_menu_entries(src@, pos as int) is None && e@ is GrammarError,
        },
    decreases src@.len() - pos,
{
    let q = skip_ws(src, pos);
    if q < src.len() && src[q] == '}' {
        let r: Vec<RawEntry> = Vec::new();
        proof {
            assert(raw_entries_view(r@) =~= Seq::<RawEntryV>::empty());
        }
        Ok((r, q + 1))
    } else {
        match parse_entry_at(src, q) {
            Err(e) => Err(e),
            Ok((entry, e2)) => {
                match parse_menu_entries(src, e2) {
                    Err(er) => Err(er),
                    Ok((rest, rp)) => {
                        let ghost restv = rest@;
                        let ghost entryv = entry@;
                        let mut rest = rest;
                        rest.insert(0, entry);
                        proof {
                            assert(raw_entries_view(rest@) =~= seq![entryv] + raw_entries_view(
                                restv,
                            ));
                        }
                        Ok((rest, rp))
                    },
                }
            },
        }
    }
}

/// A `menu` declaration after the `menu` keyword: an optional quoted display
/// name, the menu's name, and a braced list of entries.
fn parse_menu_decl_at(src: &Vec<char>, pos: usize) -> (r: Result<
    (RawMenuDecl, usize),
    CompileError,
>)
    requires
        pos <= src@.len(),
    ensures
        match r {
            Result::Ok(v) => spec_menu_decl(src@, pos as int) == Option::Some(
                (v.0@, v.1 as int),
            ) && pos <= v.1 <= src@.len() && (forall|k: int|
                0 <= k < v.0@.entries.len() ==> (#[trigger] v.0@.entries[k]).keys.len() > 0),
            Result::Err(e) => spec_menu_decl(src@, pos as int) is None && e@ is GrammarError,
        },
{
    let mut p = skip_ws(src, pos);
    let display_name: Option<String> = if p < src.len() && (src[p] == '"' || src[p] == '!') {
        match scan_string(src, p) {
            None => {
                return Err(CompileError::GrammarError { pos: p });
            },
            Some((content, e)) => {
                p = skip_ws(src, e);
                Some(string_from_chars(&content))
            },
        }
    } else {
        None
    };
    match scan_ident(src, p) {
        None => Err(CompileError::GrammarError { pos: p }),
        Some(end) => {
            let n = string_from_range(src, p, end);
            let b = skip_ws(src, end);
            if !(b < src.len() && src[b] == '{') {
                return Err(CompileError::GrammarError { pos: b });
            }
            match parse_menu_entries(src, b + 1) {
                Err(e) => Err(e),
                Ok((entries, e2)) => {
                    let decl = RawMenuDecl { name: n, display_name, entries };
                    proof {
                        assert(decl@.entries =~= raw_entries_view(decl.entries@));
                    }
                    Ok((decl, e2))
                },
            }
        },
    }
}

/// A scanned echo value ends strictly after it begins and within the text.
pub proof fn lemma_echo_value_range(s: Seq<char>, pos: int)
    requires
        0 <= pos <= s.len(),
    ensures
        spec_parse_echo_value(s, pos) matches Option::Some(v) ==> pos < v.1 <= s.len(),
{
    lemma_skip_inline_ws_range(s, pos);
    let q = spec_skip_inline_ws(s, pos);
    if 0 <= q < s.len() && is_ident_start_char(s[q]) {
        lemma_ident_end_range(s, q + 1);
    }
}

/// The leading settings block from `pos`, with the settings collected so
/// far: `shell` and `echo` lines in any order, a later line of the same kind
/// overriding an earlier one; the block ends at the first other token.
/// Yields the settings and the position of that token.
pub open spec fn spec_settings_block(
    s: Seq<char>,
    pos: int,
    sh: Option<ShellDefV>,
    echo: bool,
) -> Option<((Option<ShellDefV>, bool), int)>
    decreases s.len() - pos,
    when 0 <= pos <= s.len()
{
    let q = spec_skip_ws(s, pos);
    match spec_scan_ident(s, q) {
        Option::None => Option::Some(((sh, echo), q)),
        Option::Some(end) => if s.subrange(q, end) == "shell"@ {
            match spec_shell_items(s, end) {
                Option::None => Option::None,
                Option::Some(v) => if v.0.len() == 0 {
                    Option::None
                } else {
                    proof {
                        lemma_skip_ws_range(s, pos);
                        lemma_ident_end_range(s, q + 1);
                        lemma_shell_items_range(s, end);
                    }
                    spec_settings_block(
                        s,
                        v.1,
                        Option::Some(ShellDefV { name: v.0[0], args: v.0.drop_first() }),
                        echo,
                    )
                },
            }
        } else if s.subrange(q, end) == "echo"@ {
            match spec_parse_echo_value(s, end) {
                Option::None => Option::None,
                Option::Some(v) => {
                    proof {
                        lemma_skip_ws_range(s, pos);
                        lemma_ident_end_range(s, q + 1);
                        lemma_echo_value_range(s, end);
                    }
                    spec_settings_block(s, v.1, sh, v.0)
                },
            }
        } else {
            Option::Some(((sh, echo), q))
        },
    }
}

/// The optional leading settings block: `shell ...` lines and `echo on|off`
/// lines, in any order; a later line of the same kind overrides an earlier
/// one.
fn parse_settings_at(src: &Vec<char>, pos: usize) -> (r: Result<(Settings, usize), CompileError>)
    requires
        pos <= src@.len(),
    ensures
        match r {
            Result::Ok(v) => spec_settings_block(src@, pos as int, Option::None, true)
                == Option::Some((v.0@, v.1 as int)) && pos <= v.1 <= src@.len(),
            Result::Err(e) => spec_settings_block(src@, pos as int, Option::None, true) is None
                && e@ is GrammarError,
        },
{
    let ghost srcv = src@;
    let mut settings = Settings::default();
    let mut p: usize = pos;
    loop
        invariant
            pos <= p <= srcv.len(),
            srcv == src@,
            spec_settings_block(
                srcv,
                p as int,
                opt_shell_view(settings.shell_def),
                settings.echo_by_default,
            ) == spec_settings_block(srcv, pos as int, Option::None, true),
        decreases srcv.len() - p,
    {
        let q = skip_ws(src, p);
        match scan_ident(src, q) {
            None => {
                return Ok((settings, q));
            },
            Some(end) => {
                if range_equals_str(src, q, end, "shell") {
                    match parse_shell_def_items(src, end) {
                        Err(e) => {
                            return Err(e);
                        },
                        Ok((sd, e2)) => {
                            settings.shell_def = Some(sd);
                            p = e2;
                        },
                    }
                } else if range_equals_str(src, q, end, "echo") {
                    match parse_echo_value_at(src, end) {
                        Err(e) => {
                            return Err(e);
                        },
                        Ok((b, e2)) => {
                            settings.echo_by_default = b;
                            p = e2;
                        },
                    }
                } else {
                    return Ok((settings, q));
                }
            },
        }
    }
}

/// A scanned menu body ends strictly after it begins and within the text.
pub proof fn lemma_menu_entries_range(s: Seq<char>, p: int)
    requires
        0 <= p <= s.len(),
    ensures
        spec_menu_entries(s, p) matches Option::Some(v) ==> p < v.1 <= s.len(),
    decreases s.len() - p,
{
    lemma_skip_ws_range(s, p);
    let q = spec_skip_ws(s, p);
    if q < s.len() && s[q] == '}' {
    } else {
        lemma_entry_range(s, q);
        match spec_entry(s, q) {
            Option::None => {},
            Option::Some(v) => {
                lemma_menu_entries_range(s, v.1);
            },
        }
    }
}

/// A scanned menu declaration ends strictly after it begins and within the
/// text.
pub proof fn lemma_menu_decl_range(s: Seq<char>, pos: int)
    requires
        0 <= pos <= s.len(),
    ensures
        spec_menu_decl(s, pos) matches Option::Some(v) ==> pos < v.1 <= s.len(),
{
    lemma_skip_ws_range(s, pos);
    let p1 = spec_skip_ws(s, pos);
    if p1 < s.len() && (s[p1] == '"' || s[p1] == '!') {
        lemma_scan_string_advances(s, p1);
        match spec_scan_string(s, p1) {
            Option::None => {},
            Option::Some(d) => {
                lemma_skip_ws_range(s, d.1);
                lemma_menu_decl_named_range(s, spec_skip_ws(s, d.1), Option::Some(d.0));
            },
        }
    } else {
        lemma_menu_decl_named_range(s, p1, Option::None);
    }
}

proof fn lemma_menu_decl_named_range(s: Seq<char>, p: int, display: Option<Seq<char>>)
    requires
        0 <= p <= s.len(),
    ensures
        spec_menu_decl_named(s, p, display) matches Option::Some(v) ==> p < v.1 <= s.len(),
{
    match spec_scan_ident(s, p) {
        Option::None => {},
        Option::Some(end) => {
            lemma_ident_end_range(s, p + 1);
            lemma_skip_ws_range(s, end);
            let b = spec_skip_ws(s, end);
            if b < s.len() && s[b] == '{' {
                lemma_menu_entries_range(s, b + 1);
            }
        },
    }
}

// ---------------------------------------------------------------------------
// The whole configuration
// ---------------------------------------------------------------------------
/// What compiling a configuration can come to: a grammar failure (at some
/// position), a menu name declared twice, a missing root, or a failure of
/// materializing the tree.
pub enum ParseErrV {
    Grammar,
    DuplicateMenu(Seq<char>),
    MissingRoot,
    Materialize(CompileErrorV),
}

/// The kind of a compile error, as the outcome of the whole compilation.
pub open spec fn spec_err_kind(e: CompileErrorV) -> ParseErrV {
    match e {
        CompileErrorV::GrammarError { .. } => ParseErrV::Grammar,
        CompileErrorV::DuplicateMenuName { name } => ParseErrV::DuplicateMenu(name),
        CompileErrorV::MissingRoot => ParseErrV::MissingRoot,
        CompileErrorV::UndefinedSymbol { .. } => ParseErrV::Materialize(e),
        CompileErrorV::MenuCycle { .. } => ParseErrV::Materialize(e),
        CompileErrorV::DuplicateKeyPath { .. } => ParseErrV::Materialize(e),
    }
}

/// The `menu` and `snippet` declarations from `p` to the end of the text,
/// folded into the tables collected so far: a menu name declared twice is
/// rejected; a snippet declared twice replaces the earlier declaration.
pub open spec fn spec_top_decls(
    s: Seq<char>,
    p: int,
    menus: Seq<RawMenuDeclV>,
    snips: Seq<(Seq<char>, Seq<StringExprElemV>)>,
) -> Result<(Seq<RawMenuDeclV>, Seq<(Seq<char>, Seq<StringExprElemV>)>), ParseErrV>
    decreases s.len() - p,
    when 0 <= p <= s.len()
{
    let q = spec_skip_ws(s, p);
    if q == s.len() {
        Result::Ok((menus, snips))
    } else {
        match spec_scan_ident(s, q) {
            Option::None => Result::Err(ParseErrV::Grammar),
            Option::Some(end) => if s.subrange(q, end) == "menu"@ {
                match spec_menu_decl(s, end) {
                    Option::None => Result::Err(ParseErrV::Grammar),
                    Option::Some(v) => if mt_has(menus, v.0.name) {
                        Result::Err(ParseErrV::DuplicateMenu(v.0.name))
                    } else {
                        proof {
                            lemma_skip_ws_range(s, p);
                            lemma_ident_end_range(s, q + 1);
                            lemma_menu_decl_range(s, end);
                        }
                        spec_top_decls(s, v.1, menus.push(v.0), snips)
                    },
                }
            } else if s.subrange(q, end) == "snippet"@ {
                let w = spec_skip_ws(s, end);
                match spec_scan_ident(s, w) {
                    Option::None => Result::Err(ParseErrV::Grammar),
                    Option::Some(nend) => {
                        let eq = spec_skip_ws(s, nend);
                        if eq < s.len() && s[eq] == '=' {
                            match spec_parse_expr(s, spec_skip_ws(s, eq + 1)) {
                                Option::None => Result::Err(ParseErrV::Grammar),
                                Option::Some(v) => {
                                    proof {
                                        lemma_skip_ws_range(s, p);
                                        lemma_ident_end_range(s, q + 1);
                                        lemma_skip_ws_range(s, end);
                                        lemma_ident_end_range(s, w + 1);
                                        lemma_skip_ws_range(s, nend);
                                        lemma_skip_ws_range(s, eq + 1);
                                        lemma_parse_expr_range(s, spec_skip_ws(s, eq + 1));
                                    }
                                    spec_top_decls(
                                        s,
                                        v.1,
                                        menus,
                                        spec_table_insert(snips, s.subrange(w, nend), v.0),
                                    )
                                },
                            }
                        } else {
                            Result::Err(ParseErrV::Grammar)
                        }
                    },
                }
            } else {
                Result::Err(ParseErrV::Grammar)
            },
        }
    }
}

/// Compilation of a whole configuration text: the leading settings block,
/// the declarations folded into the two symbol tables, the root present, and
/// the tree materialized from `root`.
pub open spec fn spec_parse(s: Seq<char>) -> Result<
    (MenuV, (Option<ShellDefV>, bool), Seq<(Seq<char>, Seq<StringExprElemV>)>),
    ParseErrV,
> {
    match spec_settings_block(s, 0, Option::None, true) {
        Option::None => Result::Err(ParseErrV::Grammar),
        Option::Some(st) => match spec_top_decls(s, st.1, Seq::empty(), Seq::empty()) {
            Result::Err(k) => Result::Err(k),
            Result::Ok((menus, snips)) => if !mt_has(menus, "root"@) {
                Result::Err(ParseErrV::MissingRoot)
            } else {
                match spec_materialize(menus, "root"@, Seq::empty()) {
                    Result::Ok(m) => Result::Ok((m, st.0, snips)),
                    Result::Err(e) => Result::Err(ParseErrV::Materialize(e)),
                }
            },
        },
    }
}

/// A failed materialization reports a dangling reference, a cycle, or a
/// duplicate key path — never any other kind of error.
pub proof fn lemma_materialize_err_kinds(t: Seq<RawMenuDeclV>, name: Seq<char>, chain: Seq<Seq<char>>)
    requires
        mt_ok(t),
        chain_ok(t, chain),
        spec_materialize(t, name, chain) is Err,
    ensures
        ({
            let e = spec_materialize(t, name, chain)->Err_0;
            e is UndefinedSymbol || e is MenuCycle || e is DuplicateKeyPath
        }),
    decreases t.len() - chain.len(), 0int,
{
    if chain.contains(name) {
    } else if !mt_has(t, name) {
    } else {
        lemma_chain_bound(t, chain.push(name));
        lemma_entries_err_kinds(t, name, mt_get(t, name).entries, chain.push(name), 0);
    }
}

proof fn lemma_entries_err_kinds(
    t: Seq<RawMenuDeclV>,
    menu_name: Seq<char>,
    raw: Seq<RawEntryV>,
    chain: Seq<Seq<char>>,
    k: int,
)
    requires
        mt_ok(t),
        chain_ok(t, chain),
        0 <= k <= raw.len(),
        spec_materialize_entries(t, menu_name, raw, chain, k) is Err,
    ensures
        ({
            let e = spec_materialize_entries(t, menu_name, raw, chain, k)->Err_0;
            e is UndefinedSymbol || e is MenuCycle || e is DuplicateKeyPath
        }),
    decreases t.len() - chain.len(), raw.len() - k,
{
    if k == raw.len() {
    } else if exists|j: int| 0 <= j < k && (#[trigger] raw[j]).keys == raw[k].keys {
    } else {
        match raw[k].target {
            RawTargetV::Cmd(_) => {
                lemma_entries_err_kinds(t, menu_name, raw, chain, k + 1);
            },
            RawTargetV::Submenu(sub) => {
                if spec_materialize(t, sub, chain) is Err {
                    lemma_materialize_err_kinds(t, sub, chain);
                } else {
                    lemma_entries_err_kinds(t, menu_name, raw, chain, k + 1);
                }
            },
        }
    }
}

/// Compiles a configuration text: parses the leading settings block and the
/// `menu` and `snippet` declarations, builds the symbol tables (rejecting a
/// menu name declared twice), and materializes the tree from `root`
/// (rejecting a missing root, dangling references, reference cycles and
/// duplicate key paths).
pub fn parse(src: &str) -> (r: Result<Config, CompileError>)
    ensures
        match r {
            Result::Ok(c) => spec_parse(src@) == Result::<
                (MenuV, (Option<ShellDefV>, bool), Seq<(Seq<char>, Seq<StringExprElemV>)>),
                ParseErrV,
            >::Ok((c.menu@, c.settings@, c.snippet_table@)) && menu_v_wf(c.menu@) && c.menu@.name
                == "root"@ && c.snippet_table.wf(),
            Result::Err(e) => spec_parse(src@) == Result::<
                (MenuV, (Option<ShellDefV>, bool), Seq<(Seq<char>, Seq<StringExprElemV>)>),
                ParseErrV,
            >::Err(spec_err_kind(e@)),
        },
{
    let ghost srcv = src@;
    let chars = chars_of(src);
    let (settings, p0) = match parse_settings_at(&chars, 0) {
        Err(e) => {
            return Err(e);
        },
        Ok(v) => v,
    };
    let mut menus = MenuTable::new();
    let mut snippets = SnippetTable::new();
    let mut p: usize = p0;
    proof {
        assert(mt_keys_nonempty(menus@));
        assert(menus@ =~= Seq::<RawMenuDeclV>::empty());
        assert(snippets@ =~= Seq::<(Seq<char>, Seq<StringExprElemV>)>::empty());
    }
    loop
        invariant
            p <= srcv.len(),
            p0 <= srcv.len(),
            srcv == src@,
            chars@ == srcv,
            mt_wf(menus@),
            mt_keys_nonempty(menus@),
            snippets.wf(),
            spec_settings_block(srcv, 0, Option::None, true) == Option::Some(
                (settings@, p0 as int),
            ),
            spec_top_decls(srcv, p as int, menus@, snippets@) == spec_top_decls(
                srcv,
                p0 as int,
                Seq::empty(),
                Seq::empty(),
            ),
        ensures
            mt_wf(menus@),
            mt_keys_nonempty(menus@),
            snippets.wf(),
            spec_top_decls(srcv, p0 as int, Seq::empty(), Seq::empty()) == Result::<
                (Seq<RawMenuDeclV>, Seq<(Seq<char>, Seq<StringExprElemV>)>),
                ParseErrV,
            >::Ok((menus@, snippets@)),
        decreases srcv.len() - p,
    {
        let q = skip_ws(&chars, p);
        if q >= chars.len() {
            break;
        }
        match scan_ident(&chars, q) {
            None => {
                return Err(CompileError::GrammarError { pos: q });
            },
            Some(end) => {
                if range_equals_str(&chars, q, end, "menu") {
                    match parse_menu_decl_at(&chars, end) {
                        Err(e) => {
                            return Err(e);
                        },
                        Ok((decl, e2)) => {
                            let ghost declv = decl@;
                            let ghost oldm = menus@;
                            match menus.insert_unique(decl) {
                                Err(e) => {
                                    return Err(e);
                                },
                                Ok(()) => {
                                    proof {
                                        assert forall|i: int, k: int|
                                            0 <= i < menus@.len() && 0 <= k < (
                                            #[trigger] menus@[i]).entries.len() implies (
                                        #[trigger] menus@[i].entries[k]).keys.len() > 0 by {
                                            if i < oldm.len() {
                                                assert(menus@[i] == oldm[i]);
                                            } else {
                                                assert(menus@[i] == declv);
                                            }
                                        }
                                    }
                                    p = e2;
                                },
                            }
                        },
                    }
                } else if range_equals_str(&chars, q, end, "snippet") {
                    let w = skip_ws(&chars, end);
                    match scan_ident(&chars, w) {
                        None => {
                            return Err(CompileError::GrammarError { pos: w });
                        },
                        Some(nend) => {
                            let name = string_from_range(&chars, w, nend);
                            let eq = skip_ws(&chars, nend);
                            if !(eq < chars.len() && chars[eq] == '=') {
                                return Err(CompileError::GrammarError { pos: eq });
                            }
                            let v = skip_ws(&chars, eq + 1);
                            match parse_string_expr_at(&chars, v) {
                                Err(e) => {
                                    return Err(e);
                                },
                                Ok((expr, e2)) => {
                                    snippets.insert(name, expr);
                                    p = e2;
                                },
                            }
                        },
                    }
                } else {
                    return Err(CompileError::GrammarError { pos: q });
                }
            },
        }
    }
    let root_name: String = "root".to_owned();
    if menus.get(&root_name).is_none() {
        return Err(CompileError::MissingRoot);
    }
    let chain: Vec<String> = Vec::new();
    proof {
        assert(chain.deep_view() =~= Seq::<Seq<char>>::empty());
    }
    match parse_menu(&root_name, &menus, &chain) {
        Err(e) => {
            proof {
                lemma_materialize_err_kinds(menus@, root_name@, chain.deep_view());
            }
            Err(e)
        },
        Ok(menu) => {
            proof {
                lemma_materialize_wf(menus@, root_name@, chain.deep_view());
            }
            Ok(Config { menu, settings, snippet_table: snippets })
        },
    }
}

/// A stand-alone shell definition line: the `shell` keyword, then at least
/// one item; the first item is the program, the rest its fixed arguments.
pub open spec fn spec_parse_shell_string(s: Seq<char>) -> Option<ShellDefV> {
    let p = spec_skip_ws(s, 0);
    match spec_scan_ident(s, p) {
        Option::None => Option::None,
        Option::Some(end) => if s.subrange(p, end) == "shell"@ {
            match spec_shell_items(s, end) {
                Option::None => Option::None,
                Option::Some(v) => if v.0.len() == 0 {
                    Option::None
                } else {
                    Option::Some(ShellDefV { name: v.0[0], args: v.0.drop_first() })
                },
            }
        } else {
            Option::None
        },
    }
}

/// Parses a stand-alone shell definition line, `shell <program> <args...>`.
pub fn parse_shell_string(src: &str) -> (r: Result<ShellDef, CompileError>)
    ensures
        match r {
            Result::Ok(sd) => spec_parse_shell_string(src@) == Option::Some(sd@),
            Result::Err(_) => spec_parse_shell_string(src@) is None,
        },
{
    let chars = chars_of(src);
    let p = skip_ws(&chars, 0);
    match scan_ident(&chars, p) {
        None => Err(CompileError::GrammarError { pos: p }),
        Some(end) => {
            if range_equals_str(&chars, p, end, "shell") {
                match parse_shell_def_items(&chars, end) {
                    Err(e) => Err(e),
                    Ok((sd, _)) => Ok(sd),
                }
            } else {
                Err(CompileError::GrammarError { pos: p })
            }
        },
    }
}

/// A stand-alone string expression.
pub open spec fn spec_parse_string_expr(s: Seq<char>) -> Option<Seq<StringExprElemV>> {
    let p = spec_skip_ws(s, 0);
    match spec_parse_expr(s, p) {
        Option::None => Option::None,
        Option::Some(v) => Option::Some(v.0),
    }
}

/// Parses a stand-alone string expression, `"lit" + $name + ...`.
pub fn parse_string_expr(src: &str) -> (r: Result<StringExpr, CompileError>)
    ensures
        match r {
            Result::Ok(expr) => spec_parse_string_expr(src@) == Option::Some(expr@),
            Result::Err(_) => spec_parse_string_expr(src@) is None,
        },
{
    let chars = chars_of(src);
    let p = skip_ws(&chars, 0);
    match parse_string_expr_at(&chars, p) {
        Err(e) => Err(e),
        Ok((expr, _)) => Ok(expr),
    }
}

/// A stand-alone echo setting: the `echo` keyword, then `on` or `off`.
pub open spec fn spec_parse_echo(s: Seq<char>) -> Option<bool> {
    let p = spec_skip_ws(s, 0);
    match spec_scan_ident(s, p) {
        Option::None => Option::None,
        Option::Some(end) => if s.subrange(p, end) == "echo"@ {
            match spec_parse_echo_value(s, end) {
                Option::None => Option::None,
                Option::Some(v) => Option::Some(v.0),
            }
        } else {
            Option::None
        },
    }
}

/// Parses a stand-alone echo setting, `echo on` or `echo off`.
pub fn parse_echo_setting(src: &str) -> (r: Result<bool, CompileError>)
    ensures
        match r {
            Result::Ok(b) => spec_parse_echo(src@) == Option::Some(b),
            Result::Err(_) => spec_parse_echo(src@) is None,
        },
{
    let chars = chars_of(src);
    let p = skip_ws(&chars, 0);
    match scan_ident(&chars, p) {
        None => Err(CompileError::GrammarError { pos: p }),
        Some(end) => {
            if range_equals_str(&chars, p, end, "echo") {
                match parse_echo_value_at(&chars, end) {
                    Err(e) => Err(e),
                    Ok((b, _)) => Ok(b),
                }
            } else {
                Err(CompileError::GrammarError { pos: p })
            }
        },
    }
}

// ---------------------------------------------------------------------------
// Display text
// ---------------------------------------------------------------------------
/// `s` with every quote and backslash preceded by a backslash.
pub open spec fn spec_escape(s: Seq<char>) -> Seq<char>
    decreases s.len(),
{
    if s.len() == 0 {
        Seq::empty()
    } else {
        spec_escape(s.drop_last()) + (if s.last() == '"' || s.last() == '\\' {
            seq!['\\', s.last()]
        } else {
            seq![s.last()]
        })
    }
}

/// `s` escaped and wrapped in quotes.
pub open spec fn spec_quote(s: Seq<char>) -> Seq<char> {
    seq!['"'] + spec_escape(s) + seq!['"']
}

pub open spec fn spec_elem_display(e: StringExprElemV) -> Seq<char> {
    match e {
        StringExprElemV::Symbol(s) => s,
        StringExprElemV::Lit(s) => spec_quote(s),
    }
}

/// The rendering of an expression: its elements joined by ` + `, literals
/// quoted, references bare.
pub open spec fn spec_expr_display(elems: Seq<StringExprElemV>) -> Seq<char>
    decreases elems.len(),
{
    if elems.len() == 0 {
        Seq::empty()
    } else if elems.len() == 1 {
        spec_elem_display(elems[0])
    } else {
        spec_expr_display(elems.drop_last()) + " + "@ + spec_elem_display(elems.last())
    }
}

pub open spec fn spec_command_display(c: CommandV) -> Seq<char> {
    match c.name {
        Option::Some(n) => n,
        Option::None => spec_expr_display(c.exec_str),
    }
}

/// The label of a node in a rendered menu: a menu's display name (falling
/// back to its internal name), a command's display name (falling back to
/// its rendered body).
pub open spec fn spec_node_display(n: NodeV) -> Seq<char> {
    match n {
        NodeV::Menu(m) => match m.display_name {
            Option::Some(d) => d,
            Option::None => m.name,
        },
        NodeV::Command(c) => spec_command_display(c),
    }
}

fn escape_into(out: &mut String, s: &String)
    ensures
        final(out)@ == old(out)@ + spec_escape(s@),
{
    let cs = chars_of(s.as_str());
    let mut i: usize = 0;
    while i < cs.len()
        invariant
            i <= cs@.len(),
            cs@ == s@,
            out@ == old(out)@ + spec_escape(s@.take(i as int)),
        decreases cs@.len() - i,
    {
        let c = cs[i];
        proof {
            assert(s@.take((i + 1) as int).drop_last() =~= s@.take(i as int));
            assert(s@.take((i + 1) as int).last() == s@[i as int]);
        }
        if c == '"' || c == '\\' {
            crate::text::push_char(out, '\\');
            crate::text::push_char(out, c);
            proof {
                assert(out@ =~= old(out)@ + spec_escape(s@.take((i + 1) as int)));
            }
        } else {
            crate::text::push_char(out, c);
            proof {
                assert(out@ =~= old(out)@ + spec_escape(s@.take((i + 1) as int)));
            }
        }
        i = i + 1;
    }
    proof {
        assert(s@.take(s@.len() as int) =~= s@);
    }
}

/// `s` escaped and wrapped in quotes, the way a literal appears in a
/// rendered expression.
pub fn quote_string(s: &String) -> (r: String)
    ensures
        r@ == spec_quote(s@),
{
    let mut out = String::new();
    crate::text::push_char(&mut out, '"');
    proof {
        assert(out@ =~= seq!['"']);
    }
    escape_into(&mut out, s);
    crate::text::push_char(&mut out, '"');
    proof {
        assert(out@ =~= spec_quote(s@));
    }
    out
}

impl StringExpr {
    /// The rendering of the expression: elements joined by ` + `.
    pub fn display_string(&self) -> (r: String)
        ensures
            r@ == spec_expr_display(self@),
    {
        let ghost elemsv = self@;
        let mut out = String::new();
        let mut i: usize = 0;
        while i < self.0.len()
            invariant
                i <= self.0@.len(),
                elemsv == self@,
                elemsv.len() == self.0@.len(),
                out@ == spec_expr_display(elemsv.take(i as int)),
            decreases self.0@.len() - i,
        {
            if i > 0 {
                out.append(" + ");
            }
            match &self.0[i] {
                StringExprElem::Symbol(s) => {
                    out.append(s.as_str());
                },
                StringExprElem::String(s) => {
                    let q = quote_string(s);
                    out.append(q.as_str());
                },
            }
            proof {
                assert(elemsv.take((i + 1) as int).drop_last() =~= elemsv.take(i as int));
                assert(elemsv.take((i + 1) as int).last() == elemsv[i as int]);
                if i == 0 {
                    assert(out@ =~= spec_expr_display(elemsv.take(1int)));
                } else {
                    assert(out@ =~= spec_expr_display(elemsv.take((i + 1) as int)));
                }
            }
            i = i + 1;
        }
        proof {
            assert(elemsv.take(elemsv.len() as int) =~= elemsv);
        }
        out
    }
}

impl Command {
    /// The command's label: its display name, or its rendered body.
    pub fn display_string(&self) -> (r: String)
        ensures
            r@ == spec_command_display(self@),
    {
        match &self.name {
            Some(n) => n.clone(),
            None => self.exec_str.display_string(),
        }
    }
}

impl Node {
    /// The node's label in a rendered menu.
    pub fn display_string(&self) -> (r: String)
        ensures
            r@ == spec_node_display(node_view(*self)),
    {
        match self {
            Node::Menu(m) => match &m.display_name {
                Some(d) => d.clone(),
                None => m.name.clone(),
            },
            Node::Command(c) => c.display_string(),
        }
    }
}

// ---------------------------------------------------------------------------
// A compiled tree is well-formed
// ---------------------------------------------------------------------------
/// Every menu of a successfully materialized tree has non-empty, pairwise
/// distinct key paths: the compiler only ever produces well-formed trees.
pub proof fn lemma_materialize_wf(t: Seq<RawMenuDeclV>, name: Seq<char>, chain: Seq<Seq<char>>)
    requires
        mt_ok(t),
        chain_ok(t, chain),
        spec_materialize(t, name, chain) is Ok,
    ensures
        menu_v_wf(spec_materialize(t, name, chain)->Ok_0),
        spec_materialize(t, name, chain)->Ok_0.name == name,
    decreases t.len() - chain.len(), 0int,
{
    let decl = mt_get(t, name);
    let i = mt_index(t, name);
    assert(0 <= i < t.len() && t[i] == decl);
    assert forall|j: int| 0 <= j < decl.entries.len() implies (
    #[trigger] decl.entries[j]).keys.len() > 0 by {
        assert(t[i].entries[j].keys.len() > 0);
    }
    lemma_chain_bound(t, chain.push(name));
    lemma_materialize_entries_wf(t, name, decl.entries, chain.push(name), 0);
}

proof fn lemma_materialize_entries_wf(
    t: Seq<RawMenuDeclV>,
    menu_name: Seq<char>,
    raw: Seq<RawEntryV>,
    chain: Seq<Seq<char>>,
    k: int,
)
    requires
        mt_ok(t),
        chain_ok(t, chain),
        0 <= k <= raw.len(),
        forall|j: int| 0 <= j < raw.len() ==> (#[trigger] raw[j]).keys.len() > 0,
        spec_materialize_entries(t, menu_name, raw, chain, k) is Ok,
    ensures
        ({
            let es = spec_materialize_entries(t, menu_name, raw, chain, k)->Ok_0;
            &&& es.len() == raw.len() - k
            &&& forall|i: int|
                0 <= i < es.len() ==> (#[trigger] es[i]).0 == raw[k + i].keys && node_v_wf(
                    es[i].1,
                )
            &&& forall|a: int, b: int|
                0 <= a < b < raw.len() && k <= b ==> (#[trigger] raw[a]).keys != (
                #[trigger] raw[b]).keys
        }),
    decreases t.len() - chain.len(), raw.len() - k,
{
    if k == raw.len() {
    } else {
        let es = spec_materialize_entries(t, menu_name, raw, chain, k)->Ok_0;
        match raw[k].target {
            RawTargetV::Cmd(_) => {},
            RawTargetV::Submenu(sub) => {
                lemma_materialize_wf(t, sub, chain);
            },
        }
        lemma_materialize_entries_wf(t, menu_name, raw, chain, k + 1);
    }
}

} // verus!
