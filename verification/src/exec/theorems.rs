//! What holds of analysis and evaluation together, for every state and every supply of
//! identities.

use crate::base::forest::{lemma_new_scopes_are_not_seen, only_more_scopes};
use crate::base::lexer::{tokens_of, LexError, TokenType, TokenView};
use crate::base::parser::{
    is_literal, leaf, lemma_declaration_parses, lemma_reference_parses, AstView,
};
use crate::base::semantic_analyzer::{
    accepted, analysis, analysis_of_statements, find_id, find_name, index_of_id,
    lemma_index_of_id, lemma_index_of_name, lemma_put_then_find_id, lemma_put_then_find_name,
    name_of_type, put, rejected, resolve_id, resolve_name, AnalyzerView, SemanticAstView,
    SemanticErrorView, SymbolView, VariantView, INT_TYPE_ID, TEXT_TYPE_ID, TRUTH_TYPE_ID,
};
use crate::exec::interpreter::{
    evaluation, evaluation_of_program, evaluation_of_statements, interpretation,
    interpretation_of_statements, number_content, source_statements, stops, truth_content,
    yields, EffectView, EvalErrorView, InterpretErrorView, InterpreterView,
};
use crate::exec::invariants::{sound, top_level_ready};
use crate::exec::value::{ContentView, ValueView};
use vstd::prelude::*;

verus! {

/// What a literal node denotes: its payload, or the error if its text denotes none.
/// `None` for a node that is no literal.
pub open spec fn literal_content(literal: AstView) -> Option<
    Result<ContentView, InterpretErrorView>,
> {
    match literal {
        AstView::Number(token) => Some(number_content(token.value)),
        AstView::Truth(token) => Some(truth_content(token.value)),
        AstView::Text(token) => Some(Ok(ContentView::Text(token.value))),
        _ => None,
    }
}

/// The type of a literal node.
pub open spec fn literal_type(literal: AstView) -> u128 {
    match literal {
        AstView::Number(_) => INT_TYPE_ID,
        AstView::Truth(_) => TRUTH_TYPE_ID,
        _ => TEXT_TYPE_ID,
    }
}

/// Whether `literal` is a literal node whose text denotes the payload `content`.
pub open spec fn denotes(literal: AstView, content: ContentView) -> bool {
    literal_content(literal) == Some(Ok::<ContentView, InterpretErrorView>(content))
}

/// Whether the top-level scope has a symbol named `name`.
pub open spec fn declared_at_top_level(state: InterpreterView, name: Seq<char>) -> bool {
    find_name(state.analyzer.scopes[state.analyzer.repl_scope_id].symbols, name) is Some
}

/// The annotated node that a literal node is analyzed to.
pub open spec fn literal_node(literal: AstView) -> SemanticAstView {
    match literal {
        AstView::Number(token) => SemanticAstView::Number(token),
        AstView::Truth(token) => SemanticAstView::Truth(token),
        AstView::Text(token) => SemanticAstView::Text(token),
        _ => arbitrary(),
    }
}

/// The symbol that the declaration of `name` with a value of the type `type_id` makes,
/// with the identity `symbol_id`.
pub open spec fn variable(name: TokenView, symbol_id: u128, type_id: u128) -> SymbolView {
    SymbolView { name: name.value, symbol_id, variant: VariantView::Variable(type_id) }
}

/// The annotated node of the declaration of the symbol `symbol_id` with `literal` as its
/// initializer.
pub open spec fn declaration_node(symbol_id: u128, literal: AstView) -> SemanticAstView {
    SemanticAstView::Declaration(symbol_id, symbol_id, Box::new(literal_node(literal)))
}

/// A literal is analyzed to itself, with the type of its kind; the state and the
/// identities stay as they are.
pub proof fn lemma_analysis_of_literal(state: AnalyzerView, literal: AstView, ids: Seq<u128>)
    requires
        literal_content(literal) is Some,
    ensures
        analysis(state, literal, ids) == accepted(
            state,
            ids,
            literal_node(literal),
            Some(literal_type(literal)),
        ),
{
}

/// A literal whose text denotes a payload evaluates to a fresh value with that payload
/// and the next identity.
pub proof fn lemma_interpretation_of_literal(
    state: InterpreterView,
    literal: AstView,
    content: ContentView,
    ids: Seq<u128>,
)
    requires
        denotes(literal, content),
        ids.len() >= 1,
    ensures
        interpretation(state, literal_node(literal), ids) == yields(
            state,
            ids.drop_first(),
            Some(ValueView { content, uuid: ids[0] }),
        ),
{
}

/// The declaration of a name that the current scope does not have, with a literal as
/// its initializer, is accepted: a variable of the literal's type, with the next
/// identity, is put into the current scope.
pub proof fn lemma_analysis_of_declaration(
    state: AnalyzerView,
    name: TokenView,
    literal: AstView,
    ids: Seq<u128>,
)
    requires
        state.scopes.contains_key(state.current_scope_id),
        find_name(state.scopes[state.current_scope_id].symbols, name.value) is None,
        literal_content(literal) is Some,
        ids.len() >= 1,
    ensures
        analysis(state, AstView::Declaration(name, Box::new(literal)), ids) == accepted(
            state.put_in(
                state.current_scope_id,
                variable(name, ids[0], literal_type(literal)),
            ),
            ids.drop_first(),
            declaration_node(ids[0], literal),
            None,
        ),
{
    lemma_analysis_of_literal(state, literal, ids);
}

/// The declaration of a name that the current scope already has is rejected, and
/// nothing changes.
pub proof fn lemma_analysis_of_duplicate(
    state: AnalyzerView,
    name: TokenView,
    literal: AstView,
    ids: Seq<u128>,
)
    requires
        state.scopes.contains_key(state.current_scope_id),
        find_name(state.scopes[state.current_scope_id].symbols, name.value) is Some,
        literal_content(literal) is Some,
    ensures
        analysis(state, AstView::Declaration(name, Box::new(literal)), ids) == rejected(
            state,
            ids,
            SemanticErrorView::DuplicateDeclaration(name.value),
        ),
{
    lemma_analysis_of_literal(state, literal, ids);
}

/// Evaluating the declaration of a symbol of the current scope, with a literal as its
/// initializer, binds the symbol to a fresh value that holds what the literal denotes.
pub proof fn lemma_interpretation_of_declaration(
    state: InterpreterView,
    symbol_id: u128,
    literal: AstView,
    content: ContentView,
    ids: Seq<u128>,
)
    requires
        state.in_scope(),
        find_id(
            state.analyzer.scopes[state.analyzer.current_scope_id].symbols,
            symbol_id,
        ) is Some,
        denotes(literal, content),
        ids.len() >= 1,
    ensures
        interpretation(state, declaration_node(symbol_id, literal), ids) == yields(
            state.bind(symbol_id, ValueView { content, uuid: ids[0] }),
            ids.drop_first(),
            None,
        ),
{
    lemma_interpretation_of_literal(state, literal, content, ids);
    lemma_index_of_id(
        state.analyzer.scopes[state.analyzer.current_scope_id].symbols,
        0,
        symbol_id,
    );
}

/// The state after the declaration of `name`, which the current scope does not have,
/// with a literal as its initializer, is analyzed and evaluated: the variable is in the
/// current scope and bound to a fresh value.
pub open spec fn after_declaration(
    state: InterpreterView,
    name: TokenView,
    literal: AstView,
    content: ContentView,
    ids: Seq<u128>,
) -> InterpreterView {
    state.with_analyzer(
        state.analyzer.put_in(
            state.analyzer.current_scope_id,
            variable(name, ids[0], literal_type(literal)),
        ),
    ).bind(ids[0], ValueView { content, uuid: ids[1] })
}

/// Analyzing and evaluating, as the statement at `start`, the declaration of a name that
/// the current scope does not have, with a literal as its initializer, takes two
/// identities, one for the variable and one for its value, and goes on with the
/// statements that follow.
pub proof fn lemma_evaluation_of_declaration(
    state: InterpreterView,
    statements: Seq<AstView>,
    start: int,
    name: TokenView,
    literal: AstView,
    content: ContentView,
    ids: Seq<u128>,
    last: Option<ValueView>,
)
    requires
        0 <= start < statements.len(),
        statements[start] == AstView::Declaration(name, Box::new(literal)),
        state.in_scope(),
        find_name(
            state.analyzer.scopes[state.analyzer.current_scope_id].symbols,
            name.value,
        ) is None,
        denotes(literal, content),
        ids.len() >= 2,
    ensures
        evaluation_of_statements(state, statements, start, ids, last) == evaluation_of_statements(
            after_declaration(state, name, literal, content, ids),
            statements,
            start + 1,
            ids.skip(2),
            None,
        ),
{
    let symbol = variable(name, ids[0], literal_type(literal));
    let current = state.analyzer.current_scope_id;
    lemma_analysis_of_declaration(state.analyzer, name, literal, ids);
    let checked = state.with_analyzer(state.analyzer.put_in(current, symbol));
    lemma_put_then_find_id(state.analyzer.scopes[current].symbols, symbol);
    lemma_interpretation_of_declaration(checked, ids[0], literal, content, ids.drop_first());
    assert(ids.drop_first().drop_first() =~= ids.skip(2));
    assert(ids.drop_first()[0] == ids[1]);
}

/// A variable that is declared at the top level with a literal as its initializer
/// denotes, when its name is referenced in a later evaluation, a value that holds what
/// the literal's text denotes.
pub proof fn theorem_declared_literal_is_read_back(
    state: InterpreterView,
    declaration: Seq<char>,
    name: TokenView,
    literal: AstView,
    content: ContentView,
    use_of_name: Seq<char>,
    reference: TokenView,
    ids: Seq<u128>,
)
    requires
        top_level_ready(state),
        source_statements(declaration) == Ok::<Seq<AstView>, EvalErrorView>(
            seq![AstView::Declaration(name, Box::new(literal))],
        ),
        source_statements(use_of_name) == Ok::<Seq<AstView>, EvalErrorView>(
            seq![AstView::Variable(reference)],
        ),
        reference.value == name.value,
        denotes(literal, content),
        !declared_at_top_level(state, name.value),
        ids.len() >= 2,
    ensures
        ({
            let declared = evaluation(state, declaration, ids);
            let read = evaluation(declared.state, use_of_name, declared.ids);
            &&& declared.result == Ok::<Option<ValueView>, EvalErrorView>(None)
            &&& read.result == Ok::<Option<ValueView>, EvalErrorView>(
                Some(ValueView { content, uuid: ids[1] }),
            )
        }),
{
    let repl = state.analyzer.repl_scope_id;
    let entered = state.with_analyzer(state.analyzer.enter(repl));
    let symbol = variable(name, ids[0], literal_type(literal));
    let symbols = state.analyzer.scopes[repl].symbols;
    lemma_put_then_find_name(symbols, symbol);
    lemma_put_then_find_id(symbols, symbol);
    let program = seq![AstView::Declaration(name, Box::new(literal))];
    lemma_evaluation_of_declaration(entered, program, 0, name, literal, content, ids, None);
    let inside = after_declaration(entered, name, literal, content, ids);
    let declared = evaluation_of_program(state, program, ids);
    assert(declared.result == Ok::<Option<ValueView>, EvalErrorView>(None));
    let after = declared.state;
    assert(after.analyzer.scopes[repl].symbols == put(symbols, symbol));
    assert(resolve_name(after.analyzer.enter(repl).scopes, repl, name.value) == Some(symbol));
    assert(resolve_id(after.analyzer.enter(repl).scopes, repl, ids[0]) == Some(symbol));
    reveal_with_fuel(evaluation_of_statements, 2);
}

/// The same, for source texts given by their tokens: a text that consists of `var`, a
/// name, `=` and a literal declares a variable that a later text, which consists of the
/// name alone, reads back.
pub proof fn theorem_declaration_tokens_are_read_back(
    state: InterpreterView,
    declaration: Seq<char>,
    tokens: Seq<TokenView>,
    content: ContentView,
    use_of_name: Seq<char>,
    reference: TokenView,
    ids: Seq<u128>,
)
    requires
        top_level_ready(state),
        tokens_of(declaration) == Ok::<Seq<TokenView>, LexError>(tokens),
        tokens.len() == 4,
        tokens[0].token_type == TokenType::Var,
        tokens[1].token_type == TokenType::Name,
        tokens[2].token_type == TokenType::Assign,
        is_literal(tokens[3]),
        denotes(leaf(tokens[3])->0, content),
        tokens_of(use_of_name) == Ok::<Seq<TokenView>, LexError>(seq![reference]),
        reference.token_type == TokenType::Name,
        reference.value == tokens[1].value,
        !declared_at_top_level(state, tokens[1].value),
        ids.len() >= 2,
    ensures
        ({
            let declared = evaluation(state, declaration, ids);
            let read = evaluation(declared.state, use_of_name, declared.ids);
            &&& declared.result == Ok::<Option<ValueView>, EvalErrorView>(None)
            &&& read.result == Ok::<Option<ValueView>, EvalErrorView>(
                Some(ValueView { content, uuid: ids[1] }),
            )
        }),
{
    lemma_declaration_parses(tokens);
    lemma_reference_parses(seq![reference]);
    theorem_declared_literal_is_read_back(
        state,
        declaration,
        tokens[1],
        leaf(tokens[3])->0,
        content,
        use_of_name,
        reference,
        ids,
    );
}

/// Declaring a name twice at the top level fails: the second declaration is rejected as
/// a duplicate, unless the first one already is.
pub proof fn theorem_second_declaration_is_rejected(
    state: InterpreterView,
    code: Seq<char>,
    first_name: TokenView,
    first: AstView,
    first_content: ContentView,
    second_name: TokenView,
    second: AstView,
    ids: Seq<u128>,
)
    requires
        top_level_ready(state),
        source_statements(code) == Ok::<Seq<AstView>, EvalErrorView>(
            seq![
                AstView::Declaration(first_name, Box::new(first)),
                AstView::Declaration(second_name, Box::new(second)),
            ],
        ),
        second_name.value == first_name.value,
        denotes(first, first_content),
        literal_content(second) is Some,
        ids.len() >= 2,
    ensures
        evaluation(state, code, ids).result == Err::<Option<ValueView>, EvalErrorView>(
            EvalErrorView::Semantic(SemanticErrorView::DuplicateDeclaration(first_name.value)),
        ),
{
    let repl = state.analyzer.repl_scope_id;
    let entered = state.with_analyzer(state.analyzer.enter(repl));
    let symbols = state.analyzer.scopes[repl].symbols;
    let symbol = variable(first_name, ids[0], literal_type(first));
    let program = seq![
        AstView::Declaration(first_name, Box::new(first)),
        AstView::Declaration(second_name, Box::new(second)),
    ];
    if find_name(symbols, first_name.value) is None {
        lemma_put_then_find_name(symbols, symbol);
        lemma_evaluation_of_declaration(
            entered,
            program,
            0,
            first_name,
            first,
            first_content,
            ids,
            None,
        );
        let inside = after_declaration(entered, first_name, first, first_content, ids);
        lemma_analysis_of_duplicate(inside.analyzer, second_name, second, ids.skip(2));
    } else {
        lemma_analysis_of_duplicate(entered.analyzer, first_name, first, ids);
    }
}

/// Analyzing and evaluating, as the statement at `start`, a reference to a name that
/// denotes a variable bound to a stored value gives that value, changes nothing, and
/// goes on with the statements that follow.
pub proof fn lemma_evaluation_of_reference(
    state: InterpreterView,
    statements: Seq<AstView>,
    start: int,
    reference: TokenView,
    symbol: SymbolView,
    value: ValueView,
    ids: Seq<u128>,
    last: Option<ValueView>,
)
    requires
        0 <= start < statements.len(),
        statements[start] == AstView::Variable(reference),
        state.in_scope(),
        state.analyzer.named(reference.value) == Some(symbol),
        symbol.variant is Variable,
        state.analyzer.identified(symbol.symbol_id) == Some(symbol),
        state.bound_value(symbol.symbol_id) == Some(value),
    ensures
        evaluation_of_statements(state, statements, start, ids, last) == evaluation_of_statements(
            state,
            statements,
            start + 1,
            ids,
            Some(value),
        ),
{
    assert(analysis(state.analyzer, statements[start], ids) == accepted(
        state.analyzer,
        ids,
        SemanticAstView::Variable(symbol.symbol_id),
        Some(symbol.variant->Variable_0),
    ));
    assert(state.with_analyzer(state.analyzer) == state);
    assert(interpretation(state, SemanticAstView::Variable(symbol.symbol_id), ids) == yields(
        state,
        ids,
        Some(value),
    ));
}

/// A symbol that a scope has is what its name and its identity denote in that scope, if
/// it is the first of its name there.
pub proof fn lemma_found_in_current_scope(state: AnalyzerView, symbol: SymbolView)
    requires
        state.scopes.contains_key(state.current_scope_id),
        find_name(state.scopes[state.current_scope_id].symbols, symbol.name) == Some(symbol),
        find_id(state.scopes[state.current_scope_id].symbols, symbol.symbol_id) == Some(symbol),
    ensures
        state.named(symbol.name) == Some(symbol),
        state.identified(symbol.symbol_id) == Some(symbol),
{
}

/// The second of two declarations in one evaluation binds its variable to the very value
/// that the first variable is bound to, if its initializer is a reference to the first
/// variable.
pub proof fn theorem_copy_shares_the_value(
    state: InterpreterView,
    code: Seq<char>,
    first_name: TokenView,
    literal: AstView,
    content: ContentView,
    second_name: TokenView,
    reference: TokenView,
    ids: Seq<u128>,
)
    requires
        top_level_ready(state),
        source_statements(code) == Ok::<Seq<AstView>, EvalErrorView>(
            seq![
                AstView::Declaration(first_name, Box::new(literal)),
                AstView::Declaration(second_name, Box::new(AstView::Variable(reference))),
            ],
        ),
        reference.value == first_name.value,
        second_name.value != first_name.value,
        denotes(literal, content),
        !declared_at_top_level(state, first_name.value),
        !declared_at_top_level(state, second_name.value),
        ids.len() >= 3,
    ensures
        ({
            let run = evaluation(state, code, ids);
            let shared = ValueView { content, uuid: ids[1] };
            &&& run.result == Ok::<Option<ValueView>, EvalErrorView>(None)
            &&& run.state.bound_value(ids[0]) == Some(shared)
            &&& run.state.bound_value(ids[2]) == Some(shared)
            &&& find_name(
                run.state.analyzer.scopes[state.analyzer.repl_scope_id].symbols,
                second_name.value,
            ) == Some(variable(second_name, ids[2], literal_type(literal)))
        }),
{
    let repl = state.analyzer.repl_scope_id;
    let entered = state.with_analyzer(state.analyzer.enter(repl));
    let symbols = state.analyzer.scopes[repl].symbols;
    let first = variable(first_name, ids[0], literal_type(literal));
    let second = variable(second_name, ids[2], literal_type(literal));
    let shared = ValueView { content, uuid: ids[1] };
    let program = seq![
        AstView::Declaration(first_name, Box::new(literal)),
        AstView::Declaration(second_name, Box::new(AstView::Variable(reference))),
    ];
    lemma_put_then_find_name(symbols, first);
    lemma_put_then_find_id(symbols, first);
    lemma_evaluation_of_declaration(entered, program, 0, first_name, literal, content, ids, None);
    let inside = after_declaration(entered, first_name, literal, content, ids);
    let rest = ids.skip(2);
    let now = inside.analyzer.scopes[repl].symbols;
    assert(now == put(symbols, first));
    lemma_found_in_current_scope(inside.analyzer, first);
    // The second declaration: its initializer is analyzed to a reference to the first
    // symbol, and the name is new.
    assert(find_name(now, second_name.value) is None) by {
        lemma_index_of_name(symbols, 0, second_name.value);
        lemma_index_of_name(now, 0, second_name.value);
        lemma_index_of_id(symbols, 0, first.symbol_id);
    }
    let reference_node = SemanticAstView::Variable(ids[0]);
    assert(analysis(inside.analyzer, AstView::Variable(reference), rest) == accepted(
        inside.analyzer,
        rest,
        reference_node,
        Some(literal_type(literal)),
    ));
    let checked_analyzer = inside.analyzer.put_in(repl, second);
    assert(analysis(inside.analyzer, program[1], rest) == accepted(
        checked_analyzer,
        rest.drop_first(),
        SemanticAstView::Declaration(ids[2], ids[2], Box::new(reference_node)),
        None,
    ));
    let checked = inside.with_analyzer(checked_analyzer);
    lemma_put_then_find_id(now, second);
    lemma_put_then_find_name(now, second);
    // Evaluation reads the first symbol, whatever symbol now has its identity.
    let holder = find_id(put(now, second), ids[0]);
    assert(holder is Some && holder->0.symbol_id == ids[0]) by {
        lemma_index_of_id(now, 0, ids[0]);
        lemma_index_of_id(now, 0, ids[2]);
        lemma_index_of_id(put(now, second), 0, ids[0]);
        let place: int = match index_of_id(now, 0, ids[2]) {
            Some(i) => i,
            None => now.len() as int,
        };
        let at = index_of_id(now, 0, ids[0])->0;
        if at != place {
            assert(put(now, second)[at] == now[at]);
        } else {
            assert(put(now, second)[at] == second);
        }
        if index_of_id(put(now, second), 0, ids[0]) is None {
            assert(put(now, second)[at].symbol_id != ids[0]);
        }
    }
    assert(checked.bound_value(ids[0]) == Some(shared));
    assert(interpretation(checked, reference_node, rest.drop_first()) == yields(
        checked,
        rest.drop_first(),
        Some(shared),
    ));
    assert(interpretation(
        checked,
        SemanticAstView::Declaration(ids[2], ids[2], Box::new(reference_node)),
        rest.drop_first(),
    ) == yields(checked.bind(ids[2], shared), rest.drop_first(), None));
    reveal_with_fuel(evaluation_of_statements, 2);
}

/// Analyzing and evaluating, as the statement at `start`, the assignment of a literal to
/// a name that denotes a variable of the literal's type binds the variable to a fresh
/// value that holds what the literal denotes, and goes on with the statements that
/// follow.
pub proof fn lemma_evaluation_of_assignment(
    state: InterpreterView,
    statements: Seq<AstView>,
    start: int,
    target: TokenView,
    literal: AstView,
    content: ContentView,
    symbol: SymbolView,
    ids: Seq<u128>,
    last: Option<ValueView>,
)
    requires
        0 <= start < statements.len(),
        statements[start] == AstView::Assignment(
            Box::new(AstView::Variable(target)),
            Box::new(literal),
        ),
        state.in_scope(),
        state.analyzer.named(target.value) == Some(symbol),
        symbol.variant == VariantView::Variable(literal_type(literal)),
        state.analyzer.identified(symbol.symbol_id) == Some(symbol),
        denotes(literal, content),
        ids.len() >= 1,
    ensures
        evaluation_of_statements(state, statements, start, ids, last) == evaluation_of_statements(
            state.bind(symbol.symbol_id, ValueView { content, uuid: ids[0] }),
            statements,
            start + 1,
            ids.drop_first(),
            None,
        ),
{
    lemma_analysis_of_literal(state.analyzer, literal, ids);
    let node = SemanticAstView::Assignment(symbol.symbol_id, Box::new(literal_node(literal)));
    assert(analysis(state.analyzer, statements[start], ids) == accepted(
        state.analyzer,
        ids,
        node,
        None,
    ));
    assert(state.with_analyzer(state.analyzer) == state);
    lemma_interpretation_of_literal(state, literal, content, ids);
    assert(interpretation(state, node, ids) == yields(
        state.bind(symbol.symbol_id, ValueView { content, uuid: ids[0] }),
        ids.drop_first(),
        None,
    ));
}

/// Assigning to a variable a literal of another type than the variable's fails with a
/// type mismatch that names the variable's type and the literal's, in this order.
pub proof fn theorem_assignment_of_another_type_is_rejected(
    state: InterpreterView,
    code: Seq<char>,
    name: TokenView,
    literal: AstView,
    content: ContentView,
    target: TokenView,
    other: AstView,
    ids: Seq<u128>,
)
    requires
        top_level_ready(state),
        source_statements(code) == Ok::<Seq<AstView>, EvalErrorView>(
            seq![
                AstView::Declaration(name, Box::new(literal)),
                AstView::Assignment(Box::new(AstView::Variable(target)), Box::new(other)),
            ],
        ),
        target.value == name.value,
        denotes(literal, content),
        literal_content(other) is Some,
        literal_type(other) != literal_type(literal),
        !declared_at_top_level(state, name.value),
        ids.len() >= 2,
    ensures
        ({
            let run = evaluation(state, code, ids);
            let scopes = run.state.analyzer.scopes;
            let top = state.analyzer.repl_scope_id;
            run.result == Err::<Option<ValueView>, EvalErrorView>(
                EvalErrorView::Semantic(
                    SemanticErrorView::TypeMismatch(
                        name_of_type(scopes, top, literal_type(literal)),
                        name_of_type(scopes, top, literal_type(other)),
                    ),
                ),
            )
        }),
{
    let repl = state.analyzer.repl_scope_id;
    let entered = state.with_analyzer(state.analyzer.enter(repl));
    let symbols = state.analyzer.scopes[repl].symbols;
    let symbol = variable(name, ids[0], literal_type(literal));
    let program = seq![
        AstView::Declaration(name, Box::new(literal)),
        AstView::Assignment(Box::new(AstView::Variable(target)), Box::new(other)),
    ];
    lemma_put_then_find_name(symbols, symbol);
    lemma_put_then_find_id(symbols, symbol);
    lemma_evaluation_of_declaration(entered, program, 0, name, literal, content, ids, None);
    let inside = after_declaration(entered, name, literal, content, ids);
    lemma_found_in_current_scope(inside.analyzer, symbol);
    lemma_analysis_of_literal(inside.analyzer, other, ids.skip(2));
    assert(analysis(inside.analyzer, program[1], ids.skip(2)) == rejected(
        inside.analyzer,
        ids.skip(2),
        SemanticErrorView::TypeMismatch(
            name_of_type(inside.analyzer.scopes, repl, literal_type(literal)),
            name_of_type(inside.analyzer.scopes, repl, literal_type(other)),
        ),
    ));
    assert(inside.with_analyzer(inside.analyzer) == inside);
}

/// Assigning to a variable a literal of the variable's type succeeds, and a reference to
/// the variable afterwards gives the new value.
pub proof fn theorem_assigned_value_is_read_back(
    state: InterpreterView,
    code: Seq<char>,
    name: TokenView,
    literal: AstView,
    content: ContentView,
    target: TokenView,
    other: AstView,
    other_content: ContentView,
    reference: TokenView,
    ids: Seq<u128>,
)
    requires
        top_level_ready(state),
        source_statements(code) == Ok::<Seq<AstView>, EvalErrorView>(
            seq![
                AstView::Declaration(name, Box::new(literal)),
                AstView::Assignment(Box::new(AstView::Variable(target)), Box::new(other)),
                AstView::Variable(reference),
            ],
        ),
        target.value == name.value,
        reference.value == name.value,
        denotes(literal, content),
        denotes(other, other_content),
        literal_type(other) == literal_type(literal),
        !declared_at_top_level(state, name.value),
        ids.len() >= 3,
    ensures
        evaluation(state, code, ids).result == Ok::<Option<ValueView>, EvalErrorView>(
            Some(ValueView { content: other_content, uuid: ids[2] }),
        ),
{
    let repl = state.analyzer.repl_scope_id;
    let entered = state.with_analyzer(state.analyzer.enter(repl));
    let symbols = state.analyzer.scopes[repl].symbols;
    let symbol = variable(name, ids[0], literal_type(literal));
    let program = seq![
        AstView::Declaration(name, Box::new(literal)),
        AstView::Assignment(Box::new(AstView::Variable(target)), Box::new(other)),
        AstView::Variable(reference),
    ];
    lemma_put_then_find_name(symbols, symbol);
    lemma_put_then_find_id(symbols, symbol);
    lemma_evaluation_of_declaration(entered, program, 0, name, literal, content, ids, None);
    let inside = after_declaration(entered, name, literal, content, ids);
    lemma_found_in_current_scope(inside.analyzer, symbol);
    let rest = ids.skip(2);
    lemma_evaluation_of_assignment(
        inside,
        program,
        1,
        target,
        other,
        other_content,
        symbol,
        rest,
        None,
    );
    let value = ValueView { content: other_content, uuid: ids[2] };
    let assigned = inside.bind(symbol.symbol_id, value);
    lemma_evaluation_of_reference(
        assigned,
        program,
        2,
        reference,
        symbol,
        value,
        rest.drop_first(),
        None,
    );
}

/// A conditional whose condition evaluates to the truth value `true` evaluates its body
/// once, in the state that the condition left; one whose condition evaluates to another
/// value leaves the state as the condition left it. Either way it has no value.
pub proof fn theorem_conditional_runs_its_body_once_or_never(
    state: InterpreterView,
    condition: SemanticAstView,
    body: SemanticAstView,
    ids: Seq<u128>,
)
    ensures
        ({
            let test = interpretation(state, condition, ids);
            let whole = interpretation(
                state,
                SemanticAstView::If(Box::new(condition), Box::new(body)),
                ids,
            );
            match test.result {
                Ok(Some(tested)) => if tested.content == ContentView::Bool(true) {
                    let inner = interpretation(test.state, body, test.ids);
                    &&& whole.state == inner.state
                    &&& whole.ids == inner.ids
                    &&& inner.result is Ok ==> whole.result == Ok::<
                        Option<ValueView>,
                        InterpretErrorView,
                    >(None)
                    &&& inner.result is Err ==> whole.result == inner.result
                } else {
                    whole == yields(test.state, test.ids, None)
                },
                Ok(None) => whole == stops(test.state, test.ids, InterpretErrorView::MissingValue),
                Err(_) => whole == test,
            }
        }),
{
}

/// A conditional whose condition is not of the truth type is rejected by the analyzer,
/// and nothing is evaluated: no value is stored, no symbol bound and nothing asked of the
/// host.
pub proof fn theorem_condition_must_be_of_the_truth_type(
    state: InterpreterView,
    code: Seq<char>,
    condition: AstView,
    body: AstView,
    ids: Seq<u128>,
)
    requires
        source_statements(code) == Ok::<Seq<AstView>, EvalErrorView>(
            seq![AstView::If(Box::new(condition), Box::new(body))],
        ),
        analysis(
            state.analyzer.enter(state.analyzer.repl_scope_id),
            condition,
            ids,
        ).result matches Ok(tested) && tested.type_id != Some(TRUTH_TYPE_ID),
    ensures
        ({
            let run = evaluation(state, code, ids);
            let test = analysis(state.analyzer.enter(state.analyzer.repl_scope_id), condition, ids);
            &&& run.result matches Err(EvalErrorView::Semantic(_))
            &&& run.state.values == state.values
            &&& run.state.bindings == state.bindings
            &&& run.state.effects == state.effects
            &&& analysis(test.state, body, test.ids).result is Ok ==> run.result == Err::<
                Option<ValueView>,
                EvalErrorView,
            >(
                EvalErrorView::Semantic(
                    if test.result->Ok_0.type_id is Some {
                        SemanticErrorView::ConditionNotTruth
                    } else {
                        SemanticErrorView::MissingValue
                    },
                ),
            )
        }),
{
    let entered = state.with_analyzer(state.analyzer.enter(state.analyzer.repl_scope_id));
    let program = seq![AstView::If(Box::new(condition), Box::new(body))];
    let checked = analysis(entered.analyzer, program[0], ids);
    assert(checked.result is Err);
}

/// The statements of a block that declares `name` with `literal` as its initializer and
/// then debug-prints the name.
pub open spec fn shadowing_statements(
    name: TokenView,
    literal: AstView,
    reference: TokenView,
) -> Seq<AstView> {
    seq![
        AstView::Declaration(name, Box::new(literal)),
        AstView::DebugPrint(Box::new(AstView::Variable(reference))),
    ]
}

/// What the statements of such a block are analyzed to, if the declared symbol has the
/// identity `symbol_id`.
pub open spec fn shadowing_nodes(symbol_id: u128, literal: AstView) -> Seq<SemanticAstView> {
    seq![
        declaration_node(symbol_id, literal),
        SemanticAstView::DebugPrint(Box::new(SemanticAstView::Variable(symbol_id))),
    ]
}

/// A block that declares a name and debug-prints it is accepted, whatever the scopes
/// around it hold: its scope takes the first identity and the declared symbol the
/// second, the reference in it denotes that symbol, and the analyzer is back in the
/// scope where the block stands.
pub proof fn lemma_analysis_of_shadowing_block(
    state: AnalyzerView,
    name: TokenView,
    literal: AstView,
    reference: TokenView,
    ids: Seq<u128>,
)
    requires
        ids.len() >= 2,
        state.scopes.contains_key(state.current_scope_id),
        !state.scopes.contains_key(ids[0]),
        literal_content(literal) is Some,
        reference.value == name.value,
    ensures
        analysis(state, AstView::Block(shadowing_statements(name, literal, reference)), ids)
            == accepted(
            state.open_block(ids[0]).put_in(
                ids[0],
                variable(name, ids[1], literal_type(literal)),
            ).enter(state.current_scope_id),
            ids.skip(2),
            SemanticAstView::Block(shadowing_nodes(ids[1], literal), ids[0]),
            None,
        ),
{
    let items = shadowing_statements(name, literal, reference);
    let opened = state.open_block(ids[0]);
    let symbol = variable(name, ids[1], literal_type(literal));
    let rest = ids.drop_first();
    lemma_analysis_of_declaration(opened, name, literal, rest);
    let declared = opened.put_in(ids[0], symbol);
    lemma_put_then_find_name(Seq::<SymbolView>::empty(), symbol);
    assert(declared.scopes[ids[0]].symbols == put(Seq::<SymbolView>::empty(), symbol));
    assert(declared.named(reference.value) == Some(symbol));
    assert(rest.drop_first() =~= ids.skip(2));
    assert(rest[0] == ids[1]);
    let printed = SemanticAstView::DebugPrint(Box::new(SemanticAstView::Variable(ids[1])));
    assert(analysis(declared, AstView::Variable(reference), ids.skip(2)) == accepted(
        declared,
        ids.skip(2),
        SemanticAstView::Variable(ids[1]),
        Some(literal_type(literal)),
    ));
    assert(analysis(declared, items[1], ids.skip(2)) == accepted(
        declared,
        ids.skip(2),
        printed,
        None,
    ));
    let none = Seq::<SemanticAstView>::empty();
    let one = none.push(declaration_node(ids[1], literal));
    let two = one.push(printed);
    assert(two =~= shadowing_nodes(ids[1], literal));
    assert(analysis_of_statements(declared, items, 2, ids.skip(2), two).result == Ok::<
        Seq<SemanticAstView>,
        SemanticErrorView,
    >(two));
    assert(analysis_of_statements(declared, items, 1, ids.skip(2), one)
        == analysis_of_statements(declared, items, 2, ids.skip(2), two));
    assert(analysis_of_statements(opened, items, 0, rest, none) == analysis_of_statements(
        declared,
        items,
        1,
        ids.skip(2),
        one,
    ));
}

/// Evaluating such a block binds the symbol that it declares to a fresh value and asks
/// the host to render that value.
pub proof fn lemma_interpretation_of_shadowing_block(
    state: InterpreterView,
    scope_id: u128,
    symbol: SymbolView,
    literal: AstView,
    content: ContentView,
    ids: Seq<u128>,
)
    requires
        state.analyzer.scopes.contains_key(scope_id),
        state.analyzer.scopes[scope_id].parent == Some(state.analyzer.current_scope_id),
        find_id(state.analyzer.scopes[scope_id].symbols, symbol.symbol_id) == Some(symbol),
        denotes(literal, content),
        ids.len() >= 1,
    ensures
        ({
            let value = ValueView { content, uuid: ids[0] };
            interpretation(
                state,
                SemanticAstView::Block(shadowing_nodes(symbol.symbol_id, literal), scope_id),
                ids,
            ) == yields(
                state.bind(symbol.symbol_id, value).ask(EffectView::DebugPrint(Some(value))),
                ids.drop_first(),
                None,
            )
        }),
{
    let nodes = shadowing_nodes(symbol.symbol_id, literal);
    let value = ValueView { content, uuid: ids[0] };
    let entered = state.with_analyzer(state.analyzer.enter(scope_id));
    lemma_interpretation_of_declaration(entered, symbol.symbol_id, literal, content, ids);
    let bound = entered.bind(symbol.symbol_id, value);
    assert(bound.analyzer.identified(symbol.symbol_id) == Some(symbol));
    assert(bound.bound_value(symbol.symbol_id) == Some(value));
    assert(interpretation(bound, SemanticAstView::Variable(symbol.symbol_id), ids.drop_first())
        == yields(bound, ids.drop_first(), Some(value)));
    let asked = bound.ask(EffectView::DebugPrint(Some(value)));
    assert(interpretation(bound, nodes[1], ids.drop_first()) == yields(
        asked,
        ids.drop_first(),
        None,
    ));
    assert(interpretation_of_statements(asked, nodes, 2, ids.drop_first()) == yields(
        asked,
        ids.drop_first(),
        None,
    ));
    assert(interpretation_of_statements(bound, nodes, 1, ids.drop_first())
        == interpretation_of_statements(asked, nodes, 2, ids.drop_first()));
    assert(interpretation_of_statements(entered, nodes, 0, ids) == interpretation_of_statements(
        bound,
        nodes,
        1,
        ids.drop_first(),
    ));
    assert(asked.analyzer.leave() == Ok::<AnalyzerView, SemanticErrorView>(state.analyzer));
    assert(asked.with_analyzer(state.analyzer) == state.bind(symbol.symbol_id, value).ask(
        EffectView::DebugPrint(Some(value)),
    ));
}

/// A name that is declared at the top level can be declared again in a block: inside the
/// block it denotes the block's variable, and after the block it denotes the outer
/// variable again, with the value that it had. The identities supplied are taken to be
/// fresh: that of the block's scope denotes no scope yet, and the inner variable and its
/// value have other identities than the outer variable and its value.
pub proof fn theorem_block_shadows_inside_only(
    state: InterpreterView,
    code: Seq<char>,
    name: TokenView,
    literal: AstView,
    content: ContentView,
    inner_name: TokenView,
    inner_literal: AstView,
    inner_content: ContentView,
    inner_reference: TokenView,
    reference: TokenView,
    ids: Seq<u128>,
)
    requires
        top_level_ready(state),
        source_statements(code) == Ok::<Seq<AstView>, EvalErrorView>(
            seq![
                AstView::Declaration(name, Box::new(literal)),
                AstView::Block(shadowing_statements(inner_name, inner_literal, inner_reference)),
                AstView::Variable(reference),
            ],
        ),
        inner_name.value == name.value,
        inner_reference.value == name.value,
        reference.value == name.value,
        denotes(literal, content),
        denotes(inner_literal, inner_content),
        !declared_at_top_level(state, name.value),
        ids.len() >= 5,
        !state.analyzer.scopes.contains_key(ids[2]),
        ids[3] != ids[0],
        ids[4] != ids[1],
    ensures
        ({
            let run = evaluation(state, code, ids);
            &&& run.result == Ok::<Option<ValueView>, EvalErrorView>(
                Some(ValueView { content, uuid: ids[1] }),
            )
            &&& run.state.effects == state.effects.push(
                EffectView::DebugPrint(Some(ValueView { content: inner_content, uuid: ids[4] })),
            )
        }),
{
    let repl = state.analyzer.repl_scope_id;
    let entered = state.with_analyzer(state.analyzer.enter(repl));
    let symbols = state.analyzer.scopes[repl].symbols;
    let outer = variable(name, ids[0], literal_type(literal));
    let inner = variable(inner_name, ids[3], literal_type(inner_literal));
    let outer_value = ValueView { content, uuid: ids[1] };
    let inner_value = ValueView { content: inner_content, uuid: ids[4] };
    let block = AstView::Block(shadowing_statements(inner_name, inner_literal, inner_reference));
    let program = seq![
        AstView::Declaration(name, Box::new(literal)),
        block,
        AstView::Variable(reference),
    ];
    lemma_put_then_find_name(symbols, outer);
    lemma_put_then_find_id(symbols, outer);
    lemma_evaluation_of_declaration(entered, program, 0, name, literal, content, ids, None);
    let first = after_declaration(entered, name, literal, content, ids);
    lemma_found_in_current_scope(first.analyzer, outer);
    // The block.
    let rest = ids.skip(2);
    assert(rest[0] == ids[2] && rest[1] == ids[3]);
    assert(rest.skip(2) =~= ids.skip(4));
    lemma_analysis_of_shadowing_block(
        first.analyzer,
        inner_name,
        inner_literal,
        inner_reference,
        rest,
    );
    let checked_analyzer = first.analyzer.open_block(ids[2]).put_in(ids[2], inner).enter(repl);
    let checked = first.with_analyzer(checked_analyzer);
    lemma_put_then_find_id(Seq::<SymbolView>::empty(), inner);
    assert(checked_analyzer.scopes[ids[2]].symbols == put(Seq::<SymbolView>::empty(), inner));
    lemma_interpretation_of_shadowing_block(
        checked,
        ids[2],
        inner,
        inner_literal,
        inner_content,
        ids.skip(4),
    );
    assert(ids.skip(4)[0] == ids[4]);
    assert(ids.skip(4).drop_first() =~= ids.skip(5));
    let second = checked.bind(ids[3], inner_value).ask(
        EffectView::DebugPrint(Some(inner_value)),
    );
    assert(evaluation_of_statements(first, program, 1, rest, None) == evaluation_of_statements(
        second,
        program,
        2,
        ids.skip(5),
        None,
    ));
    // The reference after the block.
    assert(second.analyzer.scopes[repl] == first.analyzer.scopes[repl]);
    lemma_found_in_current_scope(second.analyzer, outer);
    assert(second.bound_value(ids[0]) == Some(outer_value));
    lemma_evaluation_of_reference(
        second,
        program,
        2,
        reference,
        outer,
        outer_value,
        ids.skip(5),
        None,
    );
}

/// A block that declares `name` with `literal` as its initializer, and does nothing
/// else.
pub open spec fn declaring_block(name: TokenView, literal: AstView) -> AstView {
    AstView::Block(seq![AstView::Declaration(name, Box::new(literal))])
}

/// What such a block is analyzed to, if its scope has the identity `scope_id` and the
/// declared symbol the identity `symbol_id`.
pub open spec fn declaring_block_node(
    scope_id: u128,
    symbol_id: u128,
    literal: AstView,
) -> SemanticAstView {
    SemanticAstView::Block(seq![declaration_node(symbol_id, literal)], scope_id)
}

/// A block that declares a name is accepted, whatever the scopes around it hold: its
/// scope takes the first identity and the declared symbol the second, and the analyzer
/// is back in the scope where the block stands.
pub proof fn lemma_analysis_of_declaring_block(
    state: AnalyzerView,
    name: TokenView,
    literal: AstView,
    ids: Seq<u128>,
)
    requires
        ids.len() >= 2,
        state.scopes.contains_key(state.current_scope_id),
        !state.scopes.contains_key(ids[0]),
        literal_content(literal) is Some,
    ensures
        analysis(state, declaring_block(name, literal), ids) == accepted(
            state.open_block(ids[0]).put_in(
                ids[0],
                variable(name, ids[1], literal_type(literal)),
            ).enter(state.current_scope_id),
            ids.skip(2),
            declaring_block_node(ids[0], ids[1], literal),
            None,
        ),
{
    let items = seq![AstView::Declaration(name, Box::new(literal))];
    let opened = state.open_block(ids[0]);
    let symbol = variable(name, ids[1], literal_type(literal));
    let rest = ids.drop_first();
    lemma_analysis_of_declaration(opened, name, literal, rest);
    let declared = opened.put_in(ids[0], symbol);
    assert(rest.drop_first() =~= ids.skip(2));
    assert(rest[0] == ids[1]);
    let none = Seq::<SemanticAstView>::empty();
    let one = none.push(declaration_node(ids[1], literal));
    assert(one =~= seq![declaration_node(ids[1], literal)]);
    assert(analysis_of_statements(declared, items, 1, ids.skip(2), one).result == Ok::<
        Seq<SemanticAstView>,
        SemanticErrorView,
    >(one));
    assert(analysis_of_statements(opened, items, 0, rest, none) == analysis_of_statements(
        declared,
        items,
        1,
        ids.skip(2),
        one,
    ));
}

/// Evaluating such a block binds the symbol that it declares to a fresh value, and ends
/// in the scope around the block's.
pub proof fn lemma_interpretation_of_declaring_block(
    state: InterpreterView,
    scope_id: u128,
    symbol: SymbolView,
    literal: AstView,
    content: ContentView,
    ids: Seq<u128>,
)
    requires
        state.analyzer.scopes.contains_key(scope_id),
        state.analyzer.scopes[scope_id].parent == Some(state.analyzer.current_scope_id),
        find_id(state.analyzer.scopes[scope_id].symbols, symbol.symbol_id) == Some(symbol),
        denotes(literal, content),
        ids.len() >= 1,
    ensures
        interpretation(state, declaring_block_node(scope_id, symbol.symbol_id, literal), ids)
            == yields(
            state.bind(symbol.symbol_id, ValueView { content, uuid: ids[0] }),
            ids.drop_first(),
            None,
        ),
{
    let nodes = seq![declaration_node(symbol.symbol_id, literal)];
    let value = ValueView { content, uuid: ids[0] };
    let entered = state.with_analyzer(state.analyzer.enter(scope_id));
    lemma_interpretation_of_declaration(entered, symbol.symbol_id, literal, content, ids);
    let bound = entered.bind(symbol.symbol_id, value);
    assert(interpretation_of_statements(bound, nodes, 1, ids.drop_first()) == yields(
        bound,
        ids.drop_first(),
        None,
    ));
    assert(interpretation_of_statements(entered, nodes, 0, ids) == interpretation_of_statements(
        bound,
        nodes,
        1,
        ids.drop_first(),
    ));
    assert(bound.analyzer.leave() == Ok::<AnalyzerView, SemanticErrorView>(state.analyzer));
    assert(bound.with_analyzer(state.analyzer) == state.bind(symbol.symbol_id, value));
}

/// A name that is declared in the block of a conditional is unknown after the block: a
/// reference to it in a later evaluation is rejected, if the name was unknown at the top
/// level before. The identity supplied for the block's scope is taken to denote no scope
/// yet.
pub proof fn theorem_block_declarations_end_with_the_block(
    state: InterpreterView,
    code: Seq<char>,
    condition: TokenView,
    name: TokenView,
    literal: AstView,
    content: ContentView,
    use_of_name: Seq<char>,
    reference: TokenView,
    ids: Seq<u128>,
)
    requires
        sound(state),
        source_statements(code) == Ok::<Seq<AstView>, EvalErrorView>(
            seq![
                AstView::If(
                    Box::new(AstView::Truth(condition)),
                    Box::new(declaring_block(name, literal)),
                ),
            ],
        ),
        truth_content(condition.value) is Ok,
        denotes(literal, content),
        source_statements(use_of_name) == Ok::<Seq<AstView>, EvalErrorView>(
            seq![AstView::Variable(reference)],
        ),
        reference.value == name.value,
        resolve_name(
            state.analyzer.scopes,
            state.analyzer.repl_scope_id,
            name.value,
        ) is None,
        ids.len() >= 4,
        !state.analyzer.scopes.contains_key(ids[0]),
    ensures
        ({
            let run = evaluation(state, code, ids);
            let read = evaluation(run.state, use_of_name, run.ids);
            &&& run.result == Ok::<Option<ValueView>, EvalErrorView>(None)
            &&& read.result == Err::<Option<ValueView>, EvalErrorView>(
                EvalErrorView::Semantic(SemanticErrorView::UnknownVariable(name.value)),
            )
        }),
{
    let repl = state.analyzer.repl_scope_id;
    let entered = state.with_analyzer(state.analyzer.enter(repl));
    let block = declaring_block(name, literal);
    let whole = AstView::If(Box::new(AstView::Truth(condition)), Box::new(block));
    let program = seq![whole];
    let symbol = variable(name, ids[1], literal_type(literal));
    // Analysis: the condition is a truth, the block is accepted.
    lemma_analysis_of_literal(entered.analyzer, AstView::Truth(condition), ids);
    lemma_analysis_of_declaring_block(entered.analyzer, name, literal, ids);
    let checked_analyzer = entered.analyzer.open_block(ids[0]).put_in(ids[0], symbol).enter(repl);
    let block_node = declaring_block_node(ids[0], ids[1], literal);
    let node = SemanticAstView::If(
        Box::new(SemanticAstView::Truth(condition)),
        Box::new(block_node),
    );
    assert(analysis(entered.analyzer, whole, ids) == accepted(
        checked_analyzer,
        ids.skip(2),
        node,
        None,
    ));
    let checked = entered.with_analyzer(checked_analyzer);
    // Evaluation: the condition takes an identity; the block runs or not.
    let rest = ids.skip(2);
    let truth = truth_content(condition.value)->Ok_0;
    lemma_interpretation_of_literal(checked, AstView::Truth(condition), truth, rest);
    let tested = ValueView { content: truth, uuid: rest[0] };
    lemma_put_then_find_id(Seq::<SymbolView>::empty(), symbol);
    assert(checked_analyzer.scopes[ids[0]].symbols == put(Seq::<SymbolView>::empty(), symbol));
    lemma_interpretation_of_declaring_block(
        checked,
        ids[0],
        symbol,
        literal,
        content,
        rest.drop_first(),
    );
    let after = interpretation(checked, node, rest);
    assert(after.result == Ok::<Option<ValueView>, InterpretErrorView>(None));
    assert(after.state.analyzer == checked_analyzer);
    reveal_with_fuel(evaluation_of_statements, 2);
    let run = evaluation_of_program(state, program, ids);
    assert(run.result == Ok::<Option<ValueView>, EvalErrorView>(None));
    // Afterwards the forest has one scope more, which the top level does not see.
    let scopes = run.state.analyzer.scopes;
    assert(scopes == checked_analyzer.scopes);
    assert(only_more_scopes(state.analyzer.scopes, scopes));
    lemma_new_scopes_are_not_seen(state.analyzer, scopes, repl, name.value);
    assert(scopes.contains_key(repl));
}

} // verus!
