//! What evaluation keeps of the interpreter's state, and how many identities it takes.

use crate::base::forest::{
    grown, lemma_analysis_keeps_forest, lemma_grown_twice, lemma_put_in_keeps_forest, taken,
};
use crate::base::parser::AstView;
use crate::base::semantic_analyzer::{
    analysis, analysis_of_arguments, analysis_of_statements, callee_type, has_outer,
    identities_needed, identities_needed_from, initial_state, AnalyzerView, SemanticAstView,
    SemanticErrorView, SymbolId, SymbolView, VariantView, GLOBAL_SCOPE_ID, REPL_SCOPE_ID,
};
use crate::exec::interpreter::{
    binding_of_void_function, evaluation, evaluation_of_statements, initial_interpreter,
    interpretation, interpretation_of_arguments, interpretation_of_statements, needs,
    needs_from, source_statements, values_needed, values_needed_from, void_function_type,
    EvalErrorView, InterpretErrorView, InterpreterView,
};
use crate::exec::value::ValueView;
use crate::native::function::NativeFn;
use vstd::prelude::*;

verus! {

/// The number of literals in `ast`.
pub open spec fn literals_in(ast: AstView) -> nat
    decreases ast, 0int,
{
    match ast {
        AstView::Block(nodes) => literals_from(nodes, 0),
        AstView::Number(_) => 1,
        AstView::Truth(_) => 1,
        AstView::Text(_) => 1,
        AstView::Variable(_) => 0,
        AstView::Assignment(_, value) => literals_in(*value),
        AstView::Declaration(_, value) => literals_in(*value),
        AstView::FunctionCall(callee, arguments) => literals_in(*callee) + literals_from(
            arguments,
            0,
        ),
        AstView::If(condition, body) => literals_in(*condition) + literals_in(*body),
        AstView::DebugPrint(value) => literals_in(*value),
    }
}

/// The number of literals in the nodes from `start` on.
pub open spec fn literals_from(nodes: Seq<AstView>, start: int) -> nat
    decreases nodes, nodes.len() - start,
{
    if 0 <= start < nodes.len() {
        literals_in(nodes[start]) + literals_from(nodes, start + 1)
    } else {
        0
    }
}

/// What analysis and evaluation take together is what each of them takes.
pub proof fn lemma_needs_split(ast: AstView)
    ensures
        needs(ast) == identities_needed(ast) + literals_in(ast),
    decreases ast, 0int,
{
    match ast {
        AstView::Block(nodes) => {
            lemma_needs_split_from(nodes, 0);
        },
        AstView::Assignment(_, value) => {
            lemma_needs_split(*value);
        },
        AstView::Declaration(_, value) => {
            lemma_needs_split(*value);
        },
        AstView::FunctionCall(callee, arguments) => {
            lemma_needs_split(*callee);
            lemma_needs_split_from(arguments, 0);
        },
        AstView::If(condition, body) => {
            lemma_needs_split(*condition);
            lemma_needs_split(*body);
        },
        AstView::DebugPrint(value) => {
            lemma_needs_split(*value);
        },
        _ => {},
    }
}

/// What analysis and evaluation of a list of nodes take together is what each of them
/// takes.
pub proof fn lemma_needs_split_from(nodes: Seq<AstView>, start: int)
    ensures
        needs_from(nodes, start) == identities_needed_from(nodes, start) + literals_from(
            nodes,
            start,
        ),
    decreases nodes, nodes.len() - start,
{
    if 0 <= start < nodes.len() {
        lemma_needs_split(nodes[start]);
        lemma_needs_split_from(nodes, start + 1);
    }
}

/// Whether the nodes of `analyzed` are those of `found` followed by one for each of
/// `nodes` from `start` on, none with more literals than the node it stands for.
pub open spec fn no_more_literals(
    nodes: Seq<AstView>,
    start: int,
    found: Seq<SemanticAstView>,
    analyzed: Seq<SemanticAstView>,
) -> bool {
    &&& analyzed.len() == found.len() + nodes.len() - start
    &&& forall|i: int| 0 <= i < found.len() ==> analyzed[i] == found[i]
    &&& forall|j: int|
        start <= j < nodes.len() ==> values_needed(#[trigger] analyzed[found.len() + j - start])
            <= literals_in(nodes[j])
}

/// Where the nodes of one list have no more literals each than those of another, the
/// list as a whole has no more.
pub proof fn lemma_no_more_literals_in_all(
    nodes: Seq<AstView>,
    analyzed: Seq<SemanticAstView>,
    start: int,
)
    requires
        0 <= start,
        analyzed.len() == nodes.len(),
        forall|j: int|
            0 <= j < nodes.len() ==> values_needed(#[trigger] analyzed[j]) <= literals_in(
                nodes[j],
            ),
    ensures
        values_needed_from(analyzed, start) <= literals_from(nodes, start),
    decreases nodes.len() - start,
{
    if start < nodes.len() {
        lemma_no_more_literals_in_all(nodes, analyzed, start + 1);
    }
}

/// The node that a node is analyzed to has no more literals than the node itself.
pub proof fn lemma_analysis_keeps_literals(state: AnalyzerView, ast: AstView, ids: Seq<u128>)
    ensures
        analysis(state, ast, ids).result matches Ok(analyzed) ==> values_needed(analyzed.node)
            <= literals_in(ast),
    decreases ast, 0int,
{
    match ast {
        AstView::Block(nodes) => {
            if ids.len() > 0 {
                lemma_statements_keep_literals(
                    state.open_block(ids[0]),
                    nodes,
                    0,
                    ids.drop_first(),
                    Seq::empty(),
                );
                let body = analysis_of_statements(
                    state.open_block(ids[0]),
                    nodes,
                    0,
                    ids.drop_first(),
                    Seq::empty(),
                );
                if let Ok(statements) = body.result {
                    assert forall|j: int| 0 <= j < nodes.len() implies values_needed(
                        #[trigger] statements[j],
                    ) <= literals_in(nodes[j]) by {
                        assert(statements[j] == statements[0 + j - 0]);
                    }
                    lemma_no_more_literals_in_all(nodes, statements, 0);
                }
            }
        },
        AstView::Declaration(_, initializer) => {
            lemma_analysis_keeps_literals(state, *initializer, ids);
        },
        AstView::Assignment(_, source) => {
            lemma_analysis_keeps_literals(state, *source, ids);
        },
        AstView::FunctionCall(callee, arguments) => {
            lemma_analysis_keeps_literals(state, *callee, ids);
            let function = analysis(state, *callee, ids);
            if let Ok(analyzed) = function.result {
                match callee_type(
                    function.state,
                    analyzed.type_id,
                ) {
                    Ok((argument_ids, _)) => {
                        lemma_arguments_keep_literals(
                            function.state,
                            arguments,
                            0,
                            argument_ids,
                            function.ids,
                            Seq::empty(),
                        );
                        let list = analysis_of_arguments(
                            function.state,
                            arguments,
                            0,
                            argument_ids,
                            function.ids,
                            Seq::empty(),
                        );
                        if let Ok(values) = list.result {
                            assert forall|j: int| 0 <= j < arguments.len() implies values_needed(
                                #[trigger] values[j],
                            ) <= literals_in(arguments[j]) by {
                                assert(values[j] == values[0 + j - 0]);
                            }
                            lemma_no_more_literals_in_all(arguments, values, 0);
                        }
                    },
                    Err(_) => {},
                }
            }
        },
        AstView::If(condition, body) => {
            lemma_analysis_keeps_literals(state, *condition, ids);
            let test = analysis(state, *condition, ids);
            if test.result is Ok {
                lemma_analysis_keeps_literals(test.state, *body, test.ids);
            }
        },
        AstView::DebugPrint(operand) => {
            lemma_analysis_keeps_literals(state, *operand, ids);
        },
        _ => {},
    }
}

/// The nodes that a list of statements is analyzed to have no more literals each than
/// the statements themselves.
pub proof fn lemma_statements_keep_literals(
    state: AnalyzerView,
    nodes: Seq<AstView>,
    start: int,
    ids: Seq<u128>,
    found: Seq<SemanticAstView>,
)
    requires
        0 <= start,
    ensures
        analysis_of_statements(state, nodes, start, ids, found).result matches Ok(analyzed)
            ==> no_more_literals(nodes, if start <= nodes.len() {
            start
        } else {
            nodes.len() as int
        }, found, analyzed),
    decreases nodes, nodes.len() - start,
{
    if start < nodes.len() {
        lemma_analysis_keeps_literals(state, nodes[start], ids);
        let next = analysis(state, nodes[start], ids);
        if let Ok(analyzed) = next.result {
            let longer = found.push(analyzed.node);
            lemma_statements_keep_literals(next.state, nodes, start + 1, next.ids, longer);
            let rest = analysis_of_statements(next.state, nodes, start + 1, next.ids, longer);
            if let Ok(all) = rest.result {
                assert forall|i: int| 0 <= i < found.len() implies all[i] == found[i] by {
                    assert(longer[i] == found[i]);
                }
                assert forall|j: int| start <= j < nodes.len() implies values_needed(
                    #[trigger] all[found.len() + j - start],
                ) <= literals_in(nodes[j]) by {
                    if j == start {
                        assert(all[found.len() as int] == longer[found.len() as int]);
                    } else {
                        assert(all[found.len() + j - start] == all[longer.len() + j - (start
                            + 1)]);
                    }
                }
            }
        }
    }
}

/// The nodes that the arguments of a call are analyzed to have no more literals each
/// than the arguments themselves.
pub proof fn lemma_arguments_keep_literals(
    state: AnalyzerView,
    nodes: Seq<AstView>,
    start: int,
    expected: Seq<SymbolId>,
    ids: Seq<u128>,
    found: Seq<SemanticAstView>,
)
    requires
        0 <= start,
    ensures
        analysis_of_arguments(state, nodes, start, expected, ids, found).result matches Ok(
            analyzed,
        ) ==> no_more_literals(nodes, if start <= nodes.len() {
            start
        } else {
            nodes.len() as int
        }, found, analyzed),
    decreases nodes, nodes.len() - start,
{
    if start < nodes.len() {
        lemma_analysis_keeps_literals(state, nodes[start], ids);
        let next = analysis(state, nodes[start], ids);
        if let Ok(analyzed) = next.result {
            if analyzed.type_id == Some(expected[start]) {
                let longer = found.push(analyzed.node);
                lemma_arguments_keep_literals(
                    next.state,
                    nodes,
                    start + 1,
                    expected,
                    next.ids,
                    longer,
                );
                let rest = analysis_of_arguments(
                    next.state,
                    nodes,
                    start + 1,
                    expected,
                    next.ids,
                    longer,
                );
                if let Ok(all) = rest.result {
                    assert forall|i: int| 0 <= i < found.len() implies all[i] == found[i] by {
                        assert(longer[i] == found[i]);
                    }
                    assert forall|j: int| start <= j < nodes.len() implies values_needed(
                        #[trigger] all[found.len() + j - start],
                    ) <= literals_in(nodes[j]) by {
                        if j == start {
                            assert(all[found.len() as int] == longer[found.len() as int]);
                        } else {
                            assert(all[found.len() + j - start] == all[longer.len() + j - (start
                                + 1)]);
                        }
                    }
                }
            }
        }
    }
}

/// Whether the interpreter of `after` has the forest of scopes of `before`: evaluation
/// moves from scope to scope, but creates and changes none.
pub open spec fn same_forest(before: InterpreterView, after: InterpreterView) -> bool {
    &&& after.analyzer.scopes == before.analyzer.scopes
    &&& after.analyzer.repl_scope_id == before.analyzer.repl_scope_id
    &&& after.analyzer.global_scope_id == before.analyzer.global_scope_id
}

/// What holds after an evaluation that started from the state `before` with the
/// identities `ids` and was allowed `limit` identities: the forest of scopes is as it
/// was; no more identities were taken than allowed, and the evaluation did not stop for
/// want of one if that many were there.
pub open spec fn evaluated<T>(
    before: InterpreterView,
    ids: Seq<u128>,
    limit: nat,
    after: InterpreterView,
    left: Seq<u128>,
    result: Result<T, InterpretErrorView>,
) -> bool {
    &&& same_forest(before, after)
    &&& taken(ids, left, limit)
    &&& ids.len() >= limit ==> result != Err::<T, InterpretErrorView>(
        InterpretErrorView::OutOfIdentities,
    )
}

/// Evaluation leaves the forest of scopes as it is, takes at most one identity for each
/// literal, and does not stop for want of an identity if that many are supplied.
pub proof fn lemma_interpretation_takes(
    state: InterpreterView,
    node: SemanticAstView,
    ids: Seq<u128>,
)
    ensures
        ({
            let done = interpretation(state, node, ids);
            evaluated(state, ids, values_needed(node), done.state, done.ids, done.result)
        }),
    decreases node, 0int,
{
    match node {
        SemanticAstView::Block(nodes, scope_id) => {
            lemma_statements_take(
                state.with_analyzer(state.analyzer.enter(scope_id)),
                nodes,
                0,
                ids,
            );
        },
        SemanticAstView::Declaration(_, _, initializer) => {
            lemma_interpretation_takes(state, *initializer, ids);
        },
        SemanticAstView::Assignment(_, source) => {
            lemma_interpretation_takes(state, *source, ids);
        },
        SemanticAstView::FunctionCall(callee, arguments) => {
            lemma_interpretation_takes(state, *callee, ids);
            let function = interpretation(state, *callee, ids);
            if function.result is Ok {
                lemma_arguments_take(function.state, arguments, 0, function.ids, Seq::empty());
            }
        },
        SemanticAstView::If(condition, body) => {
            lemma_interpretation_takes(state, *condition, ids);
            let test = interpretation(state, *condition, ids);
            if test.result is Ok {
                lemma_interpretation_takes(test.state, *body, test.ids);
            }
        },
        SemanticAstView::DebugPrint(operand) => {
            lemma_interpretation_takes(state, *operand, ids);
        },
        _ => {},
    }
}

/// The evaluation of a list of statements takes identities as the evaluation of one
/// does.
pub proof fn lemma_statements_take(
    state: InterpreterView,
    nodes: Seq<SemanticAstView>,
    start: int,
    ids: Seq<u128>,
)
    ensures
        ({
            let done = interpretation_of_statements(state, nodes, start, ids);
            evaluated(
                state,
                ids,
                values_needed_from(nodes, start),
                done.state,
                done.ids,
                done.result,
            )
        }),
    decreases nodes, nodes.len() - start,
{
    if 0 <= start < nodes.len() {
        lemma_interpretation_takes(state, nodes[start], ids);
        let next = interpretation(state, nodes[start], ids);
        if next.result is Ok {
            lemma_statements_take(next.state, nodes, start + 1, next.ids);
        }
    }
}

/// The evaluation of the arguments of a call takes identities as the evaluation of one
/// node does.
pub proof fn lemma_arguments_take(
    state: InterpreterView,
    nodes: Seq<SemanticAstView>,
    start: int,
    ids: Seq<u128>,
    found: Seq<ValueView>,
)
    ensures
        ({
            let done = interpretation_of_arguments(state, nodes, start, ids, found);
            evaluated(
                state,
                ids,
                values_needed_from(nodes, start),
                done.state,
                done.ids,
                done.result,
            )
        }),
    decreases nodes, nodes.len() - start,
{
    if 0 <= start < nodes.len() {
        lemma_interpretation_takes(state, nodes[start], ids);
        let next = interpretation(state, nodes[start], ids);
        if let Ok(Some(value)) = next.result {
            lemma_arguments_take(next.state, nodes, start + 1, next.ids, found.push(value));
        }
    }
}

/// Whether `error` says that the supply of identities was used up.
pub open spec fn ran_out<T>(result: Result<T, EvalErrorView>) -> bool {
    result == Err::<T, EvalErrorView>(
        EvalErrorView::Semantic(SemanticErrorView::OutOfIdentities),
    ) || result == Err::<T, EvalErrorView>(
        EvalErrorView::Internal(InterpretErrorView::OutOfIdentities),
    )
}

/// Whether the top-level scope is in the forest and has a scope around it, so that
/// evaluation can enter it and leave it again.
pub open spec fn top_level_ready(state: InterpreterView) -> bool {
    &&& state.analyzer.scopes.contains_key(state.analyzer.repl_scope_id)
    &&& state.analyzer.scopes[state.analyzer.repl_scope_id].parent is Some
}

/// Whether the forest of a state is well founded and its top level is ready: what holds
/// of a new interpreter and of every state that evaluation leads to from there.
pub open spec fn sound(state: InterpreterView) -> bool {
    &&& state.analyzer.well_founded()
    &&& top_level_ready(state)
}

/// A new interpreter is sound.
pub proof fn theorem_new_interpreter_is_sound()
    ensures
        sound(initial_interpreter()),
{
    let scopes = initial_state().scopes;
    assert(scopes.contains_key(GLOBAL_SCOPE_ID));
    assert(scopes.contains_key(REPL_SCOPE_ID));
    assert forall|id: u128| #[trigger]
        scopes.contains_key(id) && scopes[id].parent is Some implies has_outer(scopes, id) by {
        assert(id == GLOBAL_SCOPE_ID || id == REPL_SCOPE_ID);
    }
}

/// Analyzing and evaluating statements one after the other keeps the forest well founded
/// and lets it only grow, and does not stop for want of an identity if one is supplied
/// for each block, each declaration and each literal.
pub proof fn lemma_statements_never_run_out(
    state: InterpreterView,
    statements: Seq<AstView>,
    start: int,
    ids: Seq<u128>,
    last: Option<ValueView>,
)
    requires
        state.analyzer.well_founded(),
    ensures
        ({
            let run = evaluation_of_statements(state, statements, start, ids, last);
            &&& run.state.analyzer.well_founded()
            &&& grown(state.analyzer, run.state.analyzer)
            &&& ids.len() >= needs_from(statements, start) ==> !ran_out(run.result)
        }),
    decreases statements.len() - start,
{
    if 0 <= start < statements.len() {
        let ast = statements[start];
        lemma_needs_split(ast);
        lemma_analysis_keeps_forest(state.analyzer, ast, ids);
        lemma_analysis_keeps_literals(state.analyzer, ast, ids);
        let checked = analysis(state.analyzer, ast, ids);
        if let Ok(analyzed) = checked.result {
            let ready = state.with_analyzer(checked.state);
            lemma_interpretation_takes(ready, analyzed.node, checked.ids);
            let run = interpretation(ready, analyzed.node, checked.ids);
            if let Ok(value) = run.result {
                lemma_statements_never_run_out(run.state, statements, start + 1, run.ids, value);
                let rest = evaluation_of_statements(
                    run.state,
                    statements,
                    start + 1,
                    run.ids,
                    value,
                );
                lemma_grown_twice(state.analyzer, run.state.analyzer, rest.state.analyzer);
            }
        }
    }
}

/// Evaluation of a source text in a sound state leads to a sound state, in which every
/// scope that there was is still at its place.
pub proof fn theorem_evaluation_keeps_the_state_sound(
    state: InterpreterView,
    code: Seq<char>,
    ids: Seq<u128>,
)
    requires
        sound(state),
    ensures
        sound(evaluation(state, code, ids).state),
        grown(state.analyzer, evaluation(state, code, ids).state.analyzer),
{
    if let Ok(statements) = source_statements(code) {
        let entered = state.with_analyzer(state.analyzer.enter(state.analyzer.repl_scope_id));
        lemma_statements_never_run_out(entered, statements, 0, ids, None);
        let run = evaluation_of_statements(entered, statements, 0, ids, None);
        assert(run.state.analyzer.scopes.contains_key(state.analyzer.repl_scope_id));
    }
}

/// Evaluation of a source text does not stop for want of an identity if the supply
/// holds one for each block, each declaration and each literal of the text.
pub proof fn theorem_evaluation_never_runs_out(
    state: InterpreterView,
    code: Seq<char>,
    statements: Seq<AstView>,
    ids: Seq<u128>,
)
    requires
        state.analyzer.well_founded(),
        source_statements(code) == Ok::<Seq<AstView>, EvalErrorView>(statements),
        ids.len() >= needs_from(statements, 0),
    ensures
        !ran_out(evaluation(state, code, ids).result),
{
    let entered = state.with_analyzer(state.analyzer.enter(state.analyzer.repl_scope_id));
    lemma_statements_never_run_out(entered, statements, 0, ids, None);
}

/// Binding a native function in a sound state leads to a sound state, in which every
/// scope that there was is still at its place.
pub proof fn theorem_binding_keeps_the_state_sound(
    state: InterpreterView,
    name: Seq<char>,
    handle: NativeFn,
    ids: Seq<u128>,
)
    requires
        sound(state),
    ensures
        sound(binding_of_void_function(state, name, handle, ids).state),
        grown(state.analyzer, binding_of_void_function(state, name, handle, ids).state.analyzer),
{
    let analyzer = state.analyzer;
    if analyzer.scopes.contains_key(analyzer.global_scope_id) && analyzer.scopes.contains_key(
        analyzer.current_scope_id,
    ) && ids.len() >= 3 {
        let function_type = void_function_type(state, ids[0]);
        lemma_put_in_keeps_forest(analyzer, analyzer.global_scope_id, function_type);
        let typed = analyzer.put_in(analyzer.global_scope_id, function_type);
        let function = SymbolView {
            name,
            symbol_id: ids[1],
            variant: VariantView::NativeFunction(ids[0]),
        };
        assert(typed.scopes.contains_key(analyzer.current_scope_id));
        lemma_put_in_keeps_forest(typed, analyzer.current_scope_id, function);
        lemma_grown_twice(analyzer, typed, typed.put_in(analyzer.current_scope_id, function));
        assert(analyzer.scopes.contains_key(analyzer.repl_scope_id));
    }
}

} // verus!
