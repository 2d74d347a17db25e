//! Laws of the compiler and the expression resolver: what a successful
//! compilation guarantees about menu references, and when expression
//! resolution succeeds or fails.

use vstd::prelude::*;

use crate::parser::{
    chain_ok, lemma_chain_bound, lemma_parents_bound, mt_get, mt_has, mt_ok, parents_ok,
    spec_materialize, spec_materialize_entries, spec_resolve, spec_resolve_elems, table_get,
    table_has, CompileErrorV, MenuV, NodeV, RawEntryV, RawMenuDeclV, RawTargetV, ResolveErrorV,
    StringExprElemV,
};

verus! {

// ---------------------------------------------------------------------------
// Menu references
// ---------------------------------------------------------------------------
/// The declaration of menu `a` has an entry referencing menu `b`.
pub open spec fn references(t: Seq<RawMenuDeclV>, a: Seq<char>, b: Seq<char>) -> bool {
    mt_has(t, a) && exists|k: int|
        0 <= k < mt_get(t, a).entries.len() && (#[trigger] mt_get(t, a).entries[k]).target
            == RawTargetV::Submenu(b)
}

/// `path` is a chain of direct menu references: each name references the
/// next.
pub open spec fn is_ref_path(t: Seq<RawMenuDeclV>, path: Seq<Seq<char>>) -> bool {
    path.len() >= 1 && forall|i: int|
        0 <= i < path.len() - 1 ==> references(t, #[trigger] path[i], path[i + 1])
}

/// A reported `UndefinedSymbol` names a menu that really is not declared
/// anywhere in the table.
pub proof fn lemma_undefined_symbol_is_undeclared(
    t: Seq<RawMenuDeclV>,
    name: Seq<char>,
    chain: Seq<Seq<char>>,
    n: Seq<char>,
    ch: Seq<Seq<char>>,
)
    requires
        mt_ok(t),
        chain_ok(t, chain),
        spec_materialize(t, name, chain) == Result::<MenuV, CompileErrorV>::Err(
            CompileErrorV::UndefinedSymbol { name: n, chain: ch },
        ),
    ensures
        !mt_has(t, n),
    decreases t.len() - chain.len(), 0int,
{
    if chain.contains(name) {
    } else if !mt_has(t, name) {
    } else {
        let decl = mt_get(t, name);
        lemma_chain_bound(t, chain.push(name));
        lemma_entries_undefined(t, name, decl.entries, chain.push(name), 0, n, ch);
    }
}

proof fn lemma_entries_undefined(
    t: Seq<RawMenuDeclV>,
    menu_name: Seq<char>,
    raw: Seq<RawEntryV>,
    chain: Seq<Seq<char>>,
    k: int,
    n: Seq<char>,
    ch: Seq<Seq<char>>,
)
    requires
        mt_ok(t),
        chain_ok(t, chain),
        0 <= k <= raw.len(),
        spec_materialize_entries(t, menu_name, raw, chain, k) == Result::<
            Seq<(Seq<char>, NodeV)>,
            CompileErrorV,
        >::Err(CompileErrorV::UndefinedSymbol { name: n, chain: ch }),
    ensures
        !mt_has(t, n),
    decreases t.len() - chain.len(), raw.len() - k,
{
    if k == raw.len() {
    } else if exists|j: int| 0 <= j < k && (#[trigger] raw[j]).keys == raw[k].keys {
    } else {
        match raw[k].target {
            RawTargetV::Cmd(_) => {
                lemma_entries_undefined(t, menu_name, raw, chain, k + 1, n, ch);
            },
            RawTargetV::Submenu(sub) => {
                if spec_materialize(t, sub, chain) is Err {
                    lemma_undefined_symbol_is_undeclared(t, sub, chain, n, ch);
                } else {
                    lemma_entries_undefined(t, menu_name, raw, chain, k + 1, n, ch);
                }
            },
        }
    }
}

/// Every submenu referenced by the entries of a successfully materialized
/// menu was itself materialized successfully.
proof fn lemma_entries_sub_ok(
    t: Seq<RawMenuDeclV>,
    menu_name: Seq<char>,
    raw: Seq<RawEntryV>,
    chain: Seq<Seq<char>>,
    k: int,
)
    requires
        mt_ok(t),
        chain_ok(t, chain),
        0 <= k <= raw.len(),
        spec_materialize_entries(t, menu_name, raw, chain, k) is Ok,
    ensures
        forall|j: int|
            k <= j < raw.len() ==> ((#[trigger] raw[j]).target matches RawTargetV::Submenu(sub)
                ==> spec_materialize(t, sub, chain) is Ok),
    decreases raw.len() - k,
{
    if k < raw.len() {
        lemma_entries_sub_ok(t, menu_name, raw, chain, k + 1);
    }
}

/// A configuration that compiles has no menu reference cycle: no chain of
/// submenu references starting at the menu being compiled leads back to any
/// menu on the current compilation path (in particular, none leads back to
/// the start).
pub proof fn lemma_compiled_acyclic(
    t: Seq<RawMenuDeclV>,
    name: Seq<char>,
    chain: Seq<Seq<char>>,
    path: Seq<Seq<char>>,
)
    requires
        mt_ok(t),
        chain_ok(t, chain),
        spec_materialize(t, name, chain) is Ok,
        is_ref_path(t, path),
        path.len() >= 2,
        path[0] == name,
    ensures
        !chain.push(name).contains(path.last()),
    decreases path.len(),
{
    if chain.push(name).contains(path.last()) {
        let chain2 = chain.push(name);
        let decl = mt_get(t, name);
        assert(chain_ok(t, chain2)) by {
            assert forall|a: int, b: int|
                0 <= a < b < chain2.len() implies chain2[a] != chain2[b] by {
                if b < chain.len() {
                    assert(chain[a] != chain[b]);
                } else {
                    assert(chain2[b] == name && chain2[a] == chain[a]);
                }
            }
        }
        lemma_chain_bound(t, chain2);
        assert(references(t, path[0], path[1]));
        let k = choose|k: int|
            0 <= k < decl.entries.len() && (#[trigger] decl.entries[k]).target
                == RawTargetV::Submenu(path[1]);
        lemma_entries_sub_ok(t, name, decl.entries, chain2, 0);
        assert(spec_materialize(t, path[1], chain2) is Ok);
        assert(!chain2.contains(path[1]));
        if path.len() == 2 {
            assert(path.last() == path[1]);
        } else {
            let path2 = path.drop_first();
            assert(is_ref_path(t, path2)) by {
                assert forall|i: int|
                    0 <= i < path2.len() - 1 implies references(
                    t,
                    #[trigger] path2[i],
                    path2[i + 1],
                ) by {
                    assert(path2[i] == path[i + 1]);
                    assert(path2[i + 1] == path[i + 2]);
                }
            }
            assert(path2.last() == path.last());
            assert(chain2.push(path[1]).contains(path.last())) by {
                let j = choose|j: int| 0 <= j < chain2.len() && chain2[j] == path.last();
                assert(chain2.push(path[1])[j] == path.last());
            }
            assert(path2[0] == path[1]);
            lemma_compiled_acyclic(t, path[1], chain2, path2);
        }
    }
}

// ---------------------------------------------------------------------------
// Snippet references
// ---------------------------------------------------------------------------
/// The expression `elems` references the snippet `b` directly.
pub open spec fn expr_refs(elems: Seq<StringExprElemV>, b: Seq<char>) -> bool {
    exists|k: int| 0 <= k < elems.len() && elems[k] == StringExprElemV::Symbol(b)
}

/// Snippet `a` references snippet `b` directly.
pub open spec fn snip_references(
    t: Seq<(Seq<char>, Seq<StringExprElemV>)>,
    a: Seq<char>,
    b: Seq<char>,
) -> bool {
    table_has(t, a) && expr_refs(table_get(t, a), b)
}

/// `path` is a chain of direct snippet references.
pub open spec fn is_snip_path(
    t: Seq<(Seq<char>, Seq<StringExprElemV>)>,
    path: Seq<Seq<char>>,
) -> bool {
    path.len() >= 1 && forall|i: int|
        0 <= i < path.len() - 1 ==> snip_references(t, #[trigger] path[i], path[i + 1])
}

/// A chain from the body of snippet `s` extends, by prepending `s`, to a
/// chain from any expression that references `s`.
proof fn lemma_prepend_path(
    t: Seq<(Seq<char>, Seq<StringExprElemV>)>,
    s: Seq<char>,
    path: Seq<Seq<char>>,
)
    requires
        table_has(t, s),
        is_snip_path(t, path),
        expr_refs(table_get(t, s), path[0]),
    ensures
        is_snip_path(t, seq![s] + path),
        (seq![s] + path)[0] == s,
        (seq![s] + path).last() == path.last(),
        forall|i: int| 0 <= i < path.len() ==> (seq![s] + path)[i + 1] == #[trigger] path[i],
{
    let ext = seq![s] + path;
    assert(ext[0] == s);
    assert forall|i: int|
        0 <= i < ext.len() - 1 implies snip_references(t, #[trigger] ext[i], ext[i + 1]) by {
        if i == 0 {
            assert(ext[1] == path[0]);
            assert(snip_references(t, s, path[0]));
        } else {
            assert(ext[i] == path[i - 1]);
            assert(ext[i + 1] == path[i]);
        }
    }
}

/// A reported `UndefinedSnippet` names a snippet that really is not declared.
pub proof fn lemma_undefined_snippet_is_undeclared(
    t: Seq<(Seq<char>, Seq<StringExprElemV>)>,
    elems: Seq<StringExprElemV>,
    k: int,
    parents: Seq<Seq<char>>,
    n: Seq<char>,
)
    requires
        parents_ok(t, parents),
        0 <= k <= elems.len(),
        spec_resolve_elems(t, elems, k, parents) == Result::<Seq<char>, ResolveErrorV>::Err(
            ResolveErrorV::UndefinedSnippet(n),
        ),
    ensures
        !table_has(t, n),
    decreases t.len() - parents.len(), elems.len() - k,
{
    if k == elems.len() {
    } else {
        match elems[k] {
            StringExprElemV::Lit(_) => {
                lemma_undefined_snippet_is_undeclared(t, elems, k + 1, parents, n);
            },
            StringExprElemV::Symbol(s) => {
                if !table_has(t, s) {
                } else if parents.contains(s) {
                } else {
                    lemma_parents_bound(t, parents.push(s));
                    if spec_resolve_elems(t, table_get(t, s), 0, parents.push(s)) is Err {
                        lemma_undefined_snippet_is_undeclared(
                            t,
                            table_get(t, s),
                            0,
                            parents.push(s),
                            n,
                        );
                    } else {
                        lemma_undefined_snippet_is_undeclared(t, elems, k + 1, parents, n);
                    }
                }
            },
        }
    }
}

/// Every snippet referenced by a successfully resolved expression was itself
/// resolved successfully, under the chain extended with its own name.
proof fn lemma_resolve_sub_ok(
    t: Seq<(Seq<char>, Seq<StringExprElemV>)>,
    elems: Seq<StringExprElemV>,
    k: int,
    parents: Seq<Seq<char>>,
    s: Seq<char>,
)
    requires
        parents_ok(t, parents),
        0 <= k <= elems.len(),
        spec_resolve_elems(t, elems, k, parents) is Ok,
        exists|j: int| k <= j < elems.len() && elems[j] == StringExprElemV::Symbol(s),
    ensures
        table_has(t, s),
        !parents.contains(s),
        spec_resolve_elems(t, table_get(t, s), 0, parents.push(s)) is Ok,
    decreases elems.len() - k,
{
    let j = choose|j: int| k <= j < elems.len() && elems[j] == StringExprElemV::Symbol(s);
    if j == k {
    } else {
        lemma_resolve_sub_ok(t, elems, k + 1, parents, s);
    }
}

/// An expression that resolves has no snippet reference cycle: no chain of
/// snippet references starting at a snippet the expression mentions leads
/// back to any name on the current resolution path (in particular, a
/// snippet that transitively refers to itself is never resolved
/// successfully).
pub proof fn lemma_resolved_acyclic(
    t: Seq<(Seq<char>, Seq<StringExprElemV>)>,
    elems: Seq<StringExprElemV>,
    parents: Seq<Seq<char>>,
    path: Seq<Seq<char>>,
)
    requires
        parents_ok(t, parents),
        spec_resolve_elems(t, elems, 0, parents) is Ok,
        is_snip_path(t, path),
        expr_refs(elems, path[0]),
        path.len() >= 2,
    ensures
        !parents.push(path[0]).contains(path.last()),
    decreases path.len(),
{
    if parents.push(path[0]).contains(path.last()) {
        lemma_resolve_sub_ok(t, elems, 0, parents, path[0]);
        let parents2 = parents.push(path[0]);
        assert(parents_ok(t, parents2)) by {
            assert forall|a: int, b: int|
                0 <= a < b < parents2.len() implies parents2[a] != parents2[b] by {
                if b < parents.len() {
                    assert(parents[a] != parents[b]);
                } else {
                    assert(parents2[b] == path[0] && parents2[a] == parents[a]);
                }
            }
        }
        assert(snip_references(t, path[0], path[1]));
        lemma_resolve_sub_ok(t, table_get(t, path[0]), 0, parents2, path[1]);
        if path.len() == 2 {
            assert(path.last() == path[1]);
            assert(!parents2.contains(path[1]));
        } else {
            let path2 = path.drop_first();
            assert(is_snip_path(t, path2)) by {
                assert forall|i: int|
                    0 <= i < path2.len() - 1 implies snip_references(
                    t,
                    #[trigger] path2[i],
                    path2[i + 1],
                ) by {
                    assert(path2[i] == path[i + 1]);
                    assert(path2[i + 1] == path[i + 2]);
                }
            }
            assert(path2.last() == path.last());
            assert(parents2.push(path[1]).contains(path.last())) by {
                let j = choose|j: int| 0 <= j < parents2.len() && parents2[j] == path.last();
                assert(parents2.push(path[1])[j] == path.last());
            }
            assert(path2[0] == path[1]);
            lemma_resolved_acyclic(t, table_get(t, path[0]), parents2, path2);
        }
    }
}

// ---------------------------------------------------------------------------
// When resolution is owed to succeed
// ---------------------------------------------------------------------------
/// Every snippet reachable from `elems` by a chain of references is
/// declared.
pub open spec fn all_reachable_defined(
    t: Seq<(Seq<char>, Seq<StringExprElemV>)>,
    elems: Seq<StringExprElemV>,
) -> bool {
    forall|path: Seq<Seq<char>>|
        #[trigger] is_snip_path(t, path) && expr_refs(elems, path[0]) ==> table_has(
            t,
            path.last(),
        )
}

/// No chain of references from `elems` visits a snippet twice.
pub open spec fn reachable_acyclic(
    t: Seq<(Seq<char>, Seq<StringExprElemV>)>,
    elems: Seq<StringExprElemV>,
) -> bool {
    forall|path: Seq<Seq<char>>|
        #[trigger] is_snip_path(t, path) && expr_refs(elems, path[0]) ==> path.no_duplicates()
}

/// No chain of references from `elems` meets a name in `parents`.
pub open spec fn reachable_avoids(
    t: Seq<(Seq<char>, Seq<StringExprElemV>)>,
    elems: Seq<StringExprElemV>,
    parents: Seq<Seq<char>>,
) -> bool {
    forall|path: Seq<Seq<char>>|
        #[trigger] is_snip_path(t, path) && expr_refs(elems, path[0]) ==> (forall|i: int|
            0 <= i < path.len() ==> !parents.contains(#[trigger] path[i]))
}

/// An expression whose snippet chains are all declared and acyclic (and
/// avoid the names already being resolved) resolves successfully.
proof fn lemma_acyclic_resolves(
    t: Seq<(Seq<char>, Seq<StringExprElemV>)>,
    elems: Seq<StringExprElemV>,
    k: int,
    parents: Seq<Seq<char>>,
)
    requires
        parents_ok(t, parents),
        0 <= k <= elems.len(),
        all_reachable_defined(t, elems),
        reachable_acyclic(t, elems),
        reachable_avoids(t, elems, parents),
    ensures
        spec_resolve_elems(t, elems, k, parents) is Ok,
    decreases t.len() - parents.len(), elems.len() - k,
{
    if k == elems.len() {
    } else {
        match elems[k] {
            StringExprElemV::Lit(_) => {
                lemma_acyclic_resolves(t, elems, k + 1, parents);
            },
            StringExprElemV::Symbol(s) => {
                let self_path = seq![s];
                assert(is_snip_path(t, self_path) && expr_refs(elems, self_path[0]));
                assert(self_path.last() == s);
                assert(table_has(t, s));
                assert(!parents.contains(s)) by {
                    assert(!parents.contains(self_path[0]));
                }
                let parents2 = parents.push(s);
                assert(parents_ok(t, parents2)) by {
                    assert forall|a: int, b: int|
                        0 <= a < b < parents2.len() implies parents2[a] != parents2[b] by {
                        if b < parents.len() {
                            assert(parents[a] != parents[b]);
                        } else {
                            assert(parents2[b] == s && parents2[a] == parents[a]);
                        }
                    }
                }
                lemma_parents_bound(t, parents2);
                let sub = table_get(t, s);
                assert(all_reachable_defined(t, sub)) by {
                    assert forall|path: Seq<Seq<char>>|
                        #[trigger] is_snip_path(t, path) && expr_refs(sub, path[0]) implies table_has(
                        t,
                        path.last(),
                    ) by {
                        lemma_prepend_path(t, s, path);
                        let ext = seq![s] + path;
                        assert(is_snip_path(t, ext) && expr_refs(elems, ext[0]));
                    }
                }
                assert(reachable_acyclic(t, sub)) by {
                    assert forall|path: Seq<Seq<char>>|
                        #[trigger] is_snip_path(t, path) && expr_refs(
                            sub,
                            path[0],
                        ) implies path.no_duplicates() by {
                        lemma_prepend_path(t, s, path);
                        let ext = seq![s] + path;
                        assert(is_snip_path(t, ext) && expr_refs(elems, ext[0]));
                        assert(ext.no_duplicates());
                        assert forall|a: int, b: int|
                            0 <= a < b < path.len() implies path[a] != path[b] by {
                            assert(ext[a + 1] == path[a]);
                            assert(ext[b + 1] == path[b]);
                        }
                    }
                }
                assert(reachable_avoids(t, sub, parents2)) by {
                    assert forall|path: Seq<Seq<char>>|
                        #[trigger] is_snip_path(t, path) && expr_refs(sub, path[0]) implies (forall|
                        i: int,
                    |
                        0 <= i < path.len() ==> !parents2.contains(#[trigger] path[i])) by {
                        lemma_prepend_path(t, s, path);
                        let ext = seq![s] + path;
                        assert(is_snip_path(t, ext) && expr_refs(elems, ext[0]));
                        assert(ext.no_duplicates());
                        assert forall|i: int|
                            0 <= i < path.len() implies !parents2.contains(#[trigger] path[i]) by {
                            assert(ext[i + 1] == path[i]);
                            assert(!parents.contains(path[i]));
                            assert(ext[0] == s);
                            assert(path[i] != s);
                            if parents2.contains(path[i]) {
                                let j = choose|j: int|
                                    0 <= j < parents2.len() && parents2[j] == path[i];
                                if j < parents.len() {
                                    assert(parents[j] == path[i]);
                                } else {
                                    assert(parents2[j] == s);
                                }
                                assert(false);
                            }
                        }
                    }
                }
                lemma_acyclic_resolves(t, sub, 0, parents2);
                lemma_acyclic_resolves(t, elems, k + 1, parents);
            },
        }
    }
}

/// An expression all of whose snippet chains are declared and acyclic
/// resolves successfully: resolution terminates with the expected
/// concatenation rather than an error.
pub proof fn lemma_resolve_succeeds(
    t: Seq<(Seq<char>, Seq<StringExprElemV>)>,
    elems: Seq<StringExprElemV>,
)
    requires
        all_reachable_defined(t, elems),
        reachable_acyclic(t, elems),
    ensures
        spec_resolve(t, elems) is Ok,
{
    let parents = Seq::<Seq<char>>::empty();
    assert(parents_ok(t, parents));
    assert(reachable_avoids(t, elems, parents));
    lemma_acyclic_resolves(t, elems, 0, parents);
}

/// An `UndefinedSnippet` error always names a snippet reachable from the
/// expression, so it cannot arise when every reachable snippet is declared.
proof fn lemma_no_undefined_error(
    t: Seq<(Seq<char>, Seq<StringExprElemV>)>,
    elems: Seq<StringExprElemV>,
    k: int,
    parents: Seq<Seq<char>>,
)
    requires
        parents_ok(t, parents),
        0 <= k <= elems.len(),
        all_reachable_defined(t, elems),
    ensures
        !(spec_resolve_elems(t, elems, k, parents) matches Result::Err(
            ResolveErrorV::UndefinedSnippet(_),
        )),
    decreases t.len() - parents.len(), elems.len() - k,
{
    if k == elems.len() {
    } else {
        match elems[k] {
            StringExprElemV::Lit(_) => {
                lemma_no_undefined_error(t, elems, k + 1, parents);
            },
            StringExprElemV::Symbol(s) => {
                let self_path = seq![s];
                assert(is_snip_path(t, self_path) && expr_refs(elems, self_path[0]));
                assert(self_path.last() == s);
                assert(table_has(t, s));
                if parents.contains(s) {
                } else {
                    let parents2 = parents.push(s);
                    assert(parents_ok(t, parents2)) by {
                        assert forall|a: int, b: int|
                            0 <= a < b < parents2.len() implies parents2[a] != parents2[b] by {
                            if b < parents.len() {
                                assert(parents[a] != parents[b]);
                            } else {
                                assert(parents2[b] == s && parents2[a] == parents[a]);
                            }
                        }
                    }
                    lemma_parents_bound(t, parents2);
                    let sub = table_get(t, s);
                    assert(all_reachable_defined(t, sub)) by {
                        assert forall|path: Seq<Seq<char>>|
                            #[trigger] is_snip_path(t, path) && expr_refs(
                                sub,
                                path[0],
                            ) implies table_has(t, path.last()) by {
                            lemma_prepend_path(t, s, path);
                            let ext = seq![s] + path;
                            assert(is_snip_path(t, ext) && expr_refs(elems, ext[0]));
                        }
                    }
                    lemma_no_undefined_error(t, sub, 0, parents2);
                    lemma_no_undefined_error(t, elems, k + 1, parents);
                }
            },
        }
    }
}

/// An expression whose reachable snippets are all declared but whose
/// reference chains contain a cycle fails with `ResolutionCycle` — never
/// with any other error.
pub proof fn lemma_cycle_gives_cycle_error(
    t: Seq<(Seq<char>, Seq<StringExprElemV>)>,
    elems: Seq<StringExprElemV>,
    path: Seq<Seq<char>>,
)
    requires
        all_reachable_defined(t, elems),
        is_snip_path(t, path),
        expr_refs(elems, path[0]),
        path.len() >= 2,
        path[0] == path.last(),
    ensures
        spec_resolve(t, elems) matches Result::Err(e) && e is ResolutionCycle,
{
    let parents = Seq::<Seq<char>>::empty();
    assert(parents_ok(t, parents));
    match spec_resolve(t, elems) {
        Result::Ok(_) => {
            assert(parents.push(path[0]).contains(path.last())) by {
                assert(parents.push(path[0])[0] == path[0]);
            }
            lemma_resolved_acyclic(t, elems, parents, path);
        },
        Result::Err(e) => {
            match e {
                ResolveErrorV::UndefinedSnippet(_) => {
                    lemma_no_undefined_error(t, elems, 0, parents);
                },
                ResolveErrorV::ResolutionCycle(_) => {},
            }
        },
    }
}

} // verus!
