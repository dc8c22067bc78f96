//! What analysis keeps of the forest of scopes, and how many identities it takes.

use crate::base::parser::AstView;
use crate::base::semantic_analyzer::{
    analysis, analysis_of_arguments, analysis_of_statements, callee_type, has_outer,
    identities_needed, identities_needed_from, resolve_name, AnalyzerView, ScopeView,
    SemanticAstView, SemanticErrorView, SymbolId, SymbolView, TableId, VariantView,
};
use vstd::prelude::*;

verus! {

/// Whether two scopes stand at the same place of a forest: they have the same identity,
/// name, parent and depth. Their symbols may differ.
pub open spec fn same_place(first: ScopeView, second: ScopeView) -> bool {
    &&& first.table_id == second.table_id
    &&& first.name == second.name
    &&& first.parent == second.parent
    &&& first.depth == second.depth
}

/// Whether the forest of `after` is that of `before`, grown: every scope of `before` is
/// still there, at the same place, and the global and the top-level scope are the same.
pub open spec fn grown(before: AnalyzerView, after: AnalyzerView) -> bool {
    &&& after.repl_scope_id == before.repl_scope_id
    &&& after.global_scope_id == before.global_scope_id
    &&& forall|id: TableId| #[trigger]
        before.scopes.contains_key(id) ==> after.scopes.contains_key(id) && same_place(
            before.scopes[id],
            after.scopes[id],
        )
}

/// Whether taking identities from `before` can have left `after`, at most `limit` of
/// them having been taken.
pub open spec fn taken(before: Seq<u128>, after: Seq<u128>, limit: nat) -> bool {
    before.len() - limit <= after.len() <= before.len()
}

/// What holds after an analysis that started in a well-founded forest from the state
/// `before` with the identities `ids`, and was allowed `limit` identities: the forest is
/// well founded and has only grown; no more identities were taken than allowed, and the
/// analysis did not stop for want of one if that many were there; and if it succeeded,
/// the analyzer is back in the scope where it started.
pub open spec fn kept<T>(
    before: AnalyzerView,
    ids: Seq<u128>,
    limit: nat,
    after: AnalyzerView,
    left: Seq<u128>,
    result: Result<T, SemanticErrorView>,
) -> bool {
    &&& after.well_founded()
    &&& grown(before, after)
    &&& taken(ids, left, limit)
    &&& ids.len() >= limit ==> result != Err::<T, SemanticErrorView>(
        SemanticErrorView::OutOfIdentities,
    )
    &&& result is Ok ==> after.current_scope_id == before.current_scope_id
}

/// Putting a symbol into a scope of a well-founded forest leaves the forest well founded
/// and every scope at its place.
pub proof fn lemma_put_in_keeps_forest(state: AnalyzerView, scope_id: TableId, symbol: SymbolView)
    requires
        state.well_founded(),
        state.scopes.contains_key(scope_id),
    ensures
        state.put_in(scope_id, symbol).well_founded(),
        grown(state, state.put_in(scope_id, symbol)),
        state.put_in(scope_id, symbol).current_scope_id == state.current_scope_id,
{
    let after = state.put_in(scope_id, symbol);
    assert forall|id: TableId| #[trigger]
        after.scopes.contains_key(id) && after.scopes[id].parent is Some implies has_outer(
        after.scopes,
        id,
    ) by {
        assert(state.scopes.contains_key(id));
        assert(has_outer(state.scopes, id));
        let outer = state.scopes[id].parent->0;
        assert(state.scopes.contains_key(outer));
    }
}

/// Opening a block in the current scope of a well-founded forest, under an identity that
/// denotes no scope yet, leaves the forest well founded and every scope at its place.
pub proof fn lemma_open_block_keeps_forest(state: AnalyzerView, scope_id: TableId)
    requires
        state.well_founded(),
        state.scopes.contains_key(state.current_scope_id),
        !state.scopes.contains_key(scope_id),
    ensures
        state.open_block(scope_id).well_founded(),
        grown(state, state.open_block(scope_id)),
        state.open_block(scope_id).leave() == Ok::<AnalyzerView, SemanticErrorView>(
            state.open_block(scope_id).enter(state.current_scope_id),
        ),
{
    let after = state.open_block(scope_id);
    assert forall|id: TableId| #[trigger]
        after.scopes.contains_key(id) && after.scopes[id].parent is Some implies has_outer(
        after.scopes,
        id,
    ) by {
        if id != scope_id {
            assert(state.scopes.contains_key(id));
            assert(has_outer(state.scopes, id));
        }
    }
}

/// Growth of a forest carries on: a forest grown from a grown forest is grown from the
/// first.
pub proof fn lemma_grown_twice(first: AnalyzerView, second: AnalyzerView, third: AnalyzerView)
    requires
        grown(first, second),
        grown(second, third),
    ensures
        grown(first, third),
{
    assert forall|id: TableId| #[trigger]
        first.scopes.contains_key(id) implies third.scopes.contains_key(id) && same_place(
        first.scopes[id],
        third.scopes[id],
    ) by {
        assert(second.scopes.contains_key(id));
    }
}

/// Analysis keeps the forest well founded and only lets it grow; it takes at most one
/// identity for each block and each declaration, and does not stop for want of an
/// identity if that many are supplied; and where it succeeds, it ends in the scope in
/// which it began.
pub proof fn lemma_analysis_keeps_forest(state: AnalyzerView, ast: AstView, ids: Seq<u128>)
    requires
        state.well_founded(),
    ensures
        ({
            let done = analysis(state, ast, ids);
            kept(state, ids, identities_needed(ast), done.state, done.ids, done.result)
        }),
    decreases ast, 0int,
{
    match ast {
        AstView::Block(nodes) => {
            if state.scopes.contains_key(state.current_scope_id) && ids.len() > 0
                && !state.scopes.contains_key(ids[0]) {
                let opened = state.open_block(ids[0]);
                lemma_open_block_keeps_forest(state, ids[0]);
                lemma_statements_keep_forest(opened, nodes, 0, ids.drop_first(), Seq::empty());
                let body = analysis_of_statements(
                    opened,
                    nodes,
                    0,
                    ids.drop_first(),
                    Seq::empty(),
                );
                lemma_grown_twice(state, opened, body.state);
                if body.result is Ok {
                    assert(opened.scopes.contains_key(ids[0]));
                    assert(body.state.scopes.contains_key(ids[0]));
                }
            }
        },
        AstView::Number(_) => {},
        AstView::Truth(_) => {},
        AstView::Text(_) => {},
        AstView::Variable(_) => {},
        AstView::Declaration(name, initializer) => {
            lemma_analysis_keeps_forest(state, *initializer, ids);
            let value = analysis(state, *initializer, ids);
            if value.result is Ok && value.state.scopes.contains_key(
                value.state.current_scope_id,
            ) && value.ids.len() > 0 {
                let symbol = SymbolView {
                    name: name.value,
                    symbol_id: value.ids[0],
                    variant: VariantView::Variable(
                        value.result->Ok_0.type_id->0,
                    ),
                };
                lemma_put_in_keeps_forest(value.state, value.state.current_scope_id, symbol);
                lemma_grown_twice(
                    state,
                    value.state,
                    value.state.put_in(value.state.current_scope_id, symbol),
                );
            }
        },
        AstView::Assignment(_, source) => {
            lemma_analysis_keeps_forest(state, *source, ids);
        },
        AstView::FunctionCall(callee, arguments) => {
            lemma_analysis_keeps_forest(state, *callee, ids);
            let function = analysis(state, *callee, ids);
            if function.result is Ok {
                match callee_type(
                    function.state,
                    function.result->Ok_0.type_id,
                ) {
                    Ok((argument_ids, _)) => {
                        lemma_arguments_keep_forest(
                            function.state,
                            arguments,
                            0,
                            argument_ids,
                            function.ids,
                            Seq::empty(),
                        );
                        let list = analysis_of_arguments(
                            function.state,
                            arguments,
                            0,
                            argument_ids,
                            function.ids,
                            Seq::empty(),
                        );
                        lemma_grown_twice(state, function.state, list.state);
                    },
                    Err(_) => {},
                }
            }
        },
        AstView::If(condition, body) => {
            lemma_analysis_keeps_forest(state, *condition, ids);
            let test = analysis(state, *condition, ids);
            if test.result is Ok {
                lemma_analysis_keeps_forest(test.state, *body, test.ids);
                let inner = analysis(test.state, *body, test.ids);
                lemma_grown_twice(state, test.state, inner.state);
            }
        },
        AstView::DebugPrint(operand) => {
            lemma_analysis_keeps_forest(state, *operand, ids);
        },
    }
}

/// The analysis of a list of statements keeps the forest as the analysis of one does.
pub proof fn lemma_statements_keep_forest(
    state: AnalyzerView,
    nodes: Seq<AstView>,
    start: int,
    ids: Seq<u128>,
    found: Seq<SemanticAstView>,
)
    requires
        state.well_founded(),
    ensures
        ({
            let done = analysis_of_statements(state, nodes, start, ids, found);
            kept(
                state,
                ids,
                identities_needed_from(nodes, start),
                done.state,
                done.ids,
                done.result,
            )
        }),
    decreases nodes, nodes.len() - start,
{
    if 0 <= start < nodes.len() {
        lemma_analysis_keeps_forest(state, nodes[start], ids);
        let next = analysis(state, nodes[start], ids);
        if let Ok(analyzed) = next.result {
            lemma_statements_keep_forest(
                next.state,
                nodes,
                start + 1,
                next.ids,
                found.push(analyzed.node),
            );
            let rest = analysis_of_statements(
                next.state,
                nodes,
                start + 1,
                next.ids,
                found.push(analyzed.node),
            );
            lemma_grown_twice(state, next.state, rest.state);
        }
    }
}

/// The analysis of the arguments of a call keeps the forest as the analysis of one node
/// does.
pub proof fn lemma_arguments_keep_forest(
    state: AnalyzerView,
    nodes: Seq<AstView>,
    start: int,
    expected: Seq<SymbolId>,
    ids: Seq<u128>,
    found: Seq<SemanticAstView>,
)
    requires
        state.well_founded(),
    ensures
        ({
            let done = analysis_of_arguments(state, nodes, start, expected, ids, found);
            kept(
                state,
                ids,
                identities_needed_from(nodes, start),
                done.state,
                done.ids,
                done.result,
            )
        }),
    decreases nodes, nodes.len() - start,
{
    if 0 <= start < nodes.len() {
        lemma_analysis_keeps_forest(state, nodes[start], ids);
        let next = analysis(state, nodes[start], ids);
        if let Ok(analyzed) = next.result {
            if analyzed.type_id == Some(expected[start]) {
                lemma_arguments_keep_forest(
                    next.state,
                    nodes,
                    start + 1,
                    expected,
                    next.ids,
                    found.push(analyzed.node),
                );
                let rest = analysis_of_arguments(
                    next.state,
                    nodes,
                    start + 1,
                    expected,
                    next.ids,
                    found.push(analyzed.node),
                );
                lemma_grown_twice(state, next.state, rest.state);
            }
        }
    }
}

/// Whether every scope of `before` is in `after`, unchanged: `after` has at most more
/// scopes.
pub open spec fn only_more_scopes(
    before: Map<TableId, ScopeView>,
    after: Map<TableId, ScopeView>,
) -> bool {
    forall|id: TableId| #[trigger]
        before.contains_key(id) ==> after.contains_key(id) && after[id] == before[id]
}

/// What a name denotes in a scope of a well-founded forest does not depend on scopes
/// that are added to the forest: only the scope itself and the scopes around it count.
pub proof fn lemma_new_scopes_are_not_seen(
    before: AnalyzerView,
    after: Map<TableId, ScopeView>,
    scope_id: TableId,
    name: Seq<char>,
)
    requires
        before.well_founded(),
        only_more_scopes(before.scopes, after),
        before.scopes.contains_key(scope_id),
    ensures
        resolve_name(after, scope_id, name) == resolve_name(before.scopes, scope_id, name),
    decreases before.scopes[scope_id].depth,
{
    if before.scopes[scope_id].parent is Some {
        assert(has_outer(before.scopes, scope_id));
        let outer = before.scopes[scope_id].parent->0;
        assert(before.scopes.contains_key(outer));
        assert(has_outer(after, scope_id));
        lemma_new_scopes_are_not_seen(before, after, outer, name);
    }
}

} // verus!
