//! The tree-walking interpreter, and the entry point that runs source text.

use crate::base::lexer::{lex_error_description, tokens_of, LexError, Lexer};
use crate::base::parser::{
    error_description, node_views, statement_list, Ast, AstView, Error, ErrorView, Node, Parser,
};
use crate::base::semantic_analyzer::{
    analysis, boxed_tree_views, capped, capped_sum, find_id, function_type_name,
    semantic_error_description, tree_views, AnalyzerView, FunctionTypeSymbol,
    NativeFunctionSymbol, SemanticAnalyzer, SemanticAst, SemanticAstView, SemanticError,
    SemanticErrorView, SemanticNode, Symbol, SymbolId, SymbolVariant, SymbolView, VariantView,
};
use crate::exec::value::{
    ContentView, FunctionValue, PrimitiveValue, Value, ValueTable, ValueVariant, ValueView,
};
use crate::identity::{all_random, Identities};
use crate::native::function::NativeFn;
use std::collections::HashMap;
use vstd::prelude::*;

verus! {

/// The number that a run of decimal digits denotes.
pub open spec fn digits_value(digits: Seq<char>) -> int
    decreases digits.len(),
{
    if digits.len() == 0 {
        0
    } else {
        10 * digits_value(digits.drop_last()) + (digits.last() as int - '0' as int)
    }
}

/// Whether `digits` is a run of at least one decimal digit.
pub open spec fn is_digits(digits: Seq<char>) -> bool {
    &&& digits.len() > 0
    &&& forall|i: int| 0 <= i < digits.len() ==> '0' <= #[trigger] digits[i] <= '9'
}

/// The integer that `text` denotes: decimal digits after an optional `+` or `-`, within
/// the range of a 64-bit integer.
pub open spec fn integer_value(text: Seq<char>) -> Option<i64> {
    let signed = text.len() > 0 && (text[0] == '-' || text[0] == '+');
    let digits = if signed {
        text.drop_first()
    } else {
        text
    };
    let value = if signed && text[0] == '-' {
        -digits_value(digits)
    } else {
        digits_value(digits)
    };
    if is_digits(digits) && i64::MIN <= value <= i64::MAX {
        Some(value as i64)
    } else {
        None
    }
}

/// The truth value that `text` denotes.
pub open spec fn truth_value(text: Seq<char>) -> Option<bool> {
    if text == "true"@ {
        Some(true)
    } else if text == "false"@ {
        Some(false)
    } else {
        None
    }
}

/// `str::parse::<i64>`: an optional sign and decimal digits give the number they denote
/// if it is in range; anything else, the empty string and a lone sign included, gives
/// nothing.
#[verifier::external_body]
fn parse_integer(text: &str) -> (value: Option<i64>)
    ensures
        value == integer_value(text@),
{
    text.parse::<i64>().ok()
}

/// The truth value that `text` denotes.
fn parse_truth(text: &String) -> (value: Option<bool>)
    ensures
        value == truth_value(text@),
{
    if *text == "true".to_owned() {
        Some(true)
    } else if *text == "false".to_owned() {
        Some(false)
    } else {
        None
    }
}

/// Something that evaluation asks the host to do.
#[derive(Debug)]
pub enum Effect {
    /// Render this value, the operand of a debug-print, for a human to read.
    DebugPrint(Option<Value>),
    /// Call the native function bound under this handle with these arguments.
    NativeCall(u64, Vec<Value>),
}

/// The mathematical value of an [`Effect`].
pub enum EffectView {
    DebugPrint(Option<ValueView>),
    NativeCall(u64, Seq<ValueView>),
}

/// The mathematical values of a sequence of values.
pub open spec fn value_views(values: Seq<Value>) -> Seq<ValueView> {
    values.map_values(|value: Value| value@)
}

/// The mathematical value of a value that may be absent.
pub open spec fn optional_view(value: Option<Value>) -> Option<ValueView> {
    match value {
        Some(present) => Some(present@),
        None => None,
    }
}

impl View for Effect {
    type V = EffectView;

    open spec fn view(&self) -> EffectView {
        match self {
            Effect::DebugPrint(value) => EffectView::DebugPrint(optional_view(*value)),
            Effect::NativeCall(handle, arguments) => EffectView::NativeCall(
                *handle,
                value_views(arguments@),
            ),
        }
    }
}

/// The mathematical values of a sequence of effects.
pub open spec fn effect_views(effects: Seq<Effect>) -> Seq<EffectView> {
    effects.map_values(|effect: Effect| effect@)
}

/// Why evaluation of an annotated tree stopped. None of these arises from a tree that
/// the analyzer produced for the state it is evaluated in.
#[derive(Debug)]
pub enum InterpretError {
    /// The text of an integer literal denotes no 64-bit integer.
    InvalidNumber(String),
    /// The text of a truth literal is neither `true` nor `false`.
    InvalidTruth(String),
    /// No symbol with this identity is visible.
    SymbolNotFound(SymbolId),
    /// The symbol with this identity is bound to no stored value.
    ValueNotFound(SymbolId),
    /// A statement stands where a value is needed.
    MissingValue,
    /// What is called is no function.
    NotCallable,
    /// The current scope is not in the forest.
    NoCurrentScope,
    /// The current scope is a root, so there is no scope to go back to.
    RootScopePopped,
    /// The supply of identities is used up.
    OutOfIdentities,
}

/// The mathematical value of an [`InterpretError`].
pub enum InterpretErrorView {
    InvalidNumber(Seq<char>),
    InvalidTruth(Seq<char>),
    SymbolNotFound(SymbolId),
    ValueNotFound(SymbolId),
    MissingValue,
    NotCallable,
    NoCurrentScope,
    RootScopePopped,
    OutOfIdentities,
}

impl View for InterpretError {
    type V = InterpretErrorView;

    open spec fn view(&self) -> InterpretErrorView {
        match self {
            InterpretError::InvalidNumber(text) => InterpretErrorView::InvalidNumber(text@),
            InterpretError::InvalidTruth(text) => InterpretErrorView::InvalidTruth(text@),
            InterpretError::SymbolNotFound(id) => InterpretErrorView::SymbolNotFound(*id),
            InterpretError::ValueNotFound(id) => InterpretErrorView::ValueNotFound(*id),
            InterpretError::MissingValue => InterpretErrorView::MissingValue,
            InterpretError::NotCallable => InterpretErrorView::NotCallable,
            InterpretError::NoCurrentScope => InterpretErrorView::NoCurrentScope,
            InterpretError::RootScopePopped => InterpretErrorView::RootScopePopped,
            InterpretError::OutOfIdentities => InterpretErrorView::OutOfIdentities,
        }
    }
}

/// The mathematical value of an [`Interpreter`].
pub struct InterpreterView {
    /// The state of the analyzer.
    pub analyzer: AnalyzerView,
    /// The stored values, by identity.
    pub values: Map<u128, ValueView>,
    /// The identity of the value that each bound symbol denotes.
    pub bindings: Map<SymbolId, u128>,
    /// What the host has been asked to do, oldest first.
    pub effects: Seq<EffectView>,
}

impl InterpreterView {
    /// The state with `analyzer` as the state of the analyzer.
    pub open spec fn with_analyzer(self, analyzer: AnalyzerView) -> InterpreterView {
        InterpreterView { analyzer, ..self }
    }

    /// The state after the symbol `symbol_id` is bound to `value`, which is stored.
    pub open spec fn bind(self, symbol_id: SymbolId, value: ValueView) -> InterpreterView {
        InterpreterView {
            values: self.values.insert(value.uuid, value),
            bindings: self.bindings.insert(symbol_id, value.uuid),
            ..self
        }
    }

    /// The state after the host is asked for `effect`.
    pub open spec fn ask(self, effect: EffectView) -> InterpreterView {
        InterpreterView { effects: self.effects.push(effect), ..self }
    }

    /// The value that the symbol `symbol_id` denotes, if it is bound to a stored value.
    pub open spec fn bound_value(self, symbol_id: SymbolId) -> Option<ValueView> {
        if self.bindings.contains_key(symbol_id) && self.values.contains_key(
            self.bindings[symbol_id],
        ) {
            Some(self.values[self.bindings[symbol_id]])
        } else {
            None
        }
    }

    /// Whether the current scope is in the forest.
    pub open spec fn in_scope(self) -> bool {
        self.analyzer.scopes.contains_key(self.analyzer.current_scope_id)
    }
}

/// What evaluating a node gives: the interpreter's state afterwards, the identities that
/// are left, and the value, which a statement does not have, or the error.
pub struct Interpretation {
    pub state: InterpreterView,
    pub ids: Seq<u128>,
    pub result: Result<Option<ValueView>, InterpretErrorView>,
}

/// What evaluating the arguments of a call gives.
pub struct ArgumentsInterpretation {
    pub state: InterpreterView,
    pub ids: Seq<u128>,
    pub result: Result<Seq<ValueView>, InterpretErrorView>,
}

/// An evaluation that gives `value`.
pub open spec fn yields(
    state: InterpreterView,
    ids: Seq<u128>,
    value: Option<ValueView>,
) -> Interpretation {
    Interpretation { state, ids, result: Ok(value) }
}

/// An evaluation that stops with `error`.
pub open spec fn stops(
    state: InterpreterView,
    ids: Seq<u128>,
    error: InterpretErrorView,
) -> Interpretation {
    Interpretation { state, ids, result: Err(error) }
}

/// The evaluation of a literal whose text denotes `content`: a fresh value with the next
/// identity.
pub open spec fn interpretation_of_literal(
    state: InterpreterView,
    content: Result<ContentView, InterpretErrorView>,
    ids: Seq<u128>,
) -> Interpretation {
    match content {
        Err(error) => stops(state, ids, error),
        Ok(payload) => if ids.len() == 0 {
            stops(state, ids, InterpretErrorView::OutOfIdentities)
        } else {
            yields(state, ids.drop_first(), Some(ValueView { content: payload, uuid: ids[0] }))
        },
    }
}

/// The payload of the integer literal `text`.
pub open spec fn number_content(text: Seq<char>) -> Result<ContentView, InterpretErrorView> {
    match integer_value(text) {
        Some(number) => Ok(ContentView::Int(number)),
        None => Err(InterpretErrorView::InvalidNumber(text)),
    }
}

/// The payload of the truth literal `text`.
pub open spec fn truth_content(text: Seq<char>) -> Result<ContentView, InterpretErrorView> {
    match truth_value(text) {
        Some(truth) => Ok(ContentView::Bool(truth)),
        None => Err(InterpretErrorView::InvalidTruth(text)),
    }
}

/// The evaluation of a reference to the symbol `symbol_id`.
pub open spec fn interpretation_of_variable(
    state: InterpreterView,
    symbol_id: SymbolId,
    ids: Seq<u128>,
) -> Interpretation {
    if !state.in_scope() {
        stops(state, ids, InterpretErrorView::NoCurrentScope)
    } else {
        match state.analyzer.identified(symbol_id) {
            None => stops(state, ids, InterpretErrorView::SymbolNotFound(symbol_id)),
            Some(symbol) => match state.bound_value(symbol.symbol_id) {
                None => stops(state, ids, InterpretErrorView::ValueNotFound(symbol.symbol_id)),
                Some(value) => yields(state, ids, Some(value)),
            },
        }
    }
}

/// The binding of `value` to the symbol `symbol_id` by a declaration, which looks for
/// the symbol in the current scope alone, or by an assignment, which looks for it in
/// the scopes around as well.
pub open spec fn interpretation_of_binding(
    state: InterpreterView,
    symbol_id: SymbolId,
    declaring: bool,
    value: Option<ValueView>,
    ids: Seq<u128>,
) -> Interpretation {
    match value {
        None => stops(state, ids, InterpretErrorView::MissingValue),
        Some(bound) => if !state.in_scope() {
            stops(state, ids, InterpretErrorView::NoCurrentScope)
        } else {
            let symbol = if declaring {
                find_id(state.analyzer.scopes[state.analyzer.current_scope_id].symbols, symbol_id)
            } else {
                state.analyzer.identified(symbol_id)
            };
            match symbol {
                None => stops(state, ids, InterpretErrorView::SymbolNotFound(symbol_id)),
                Some(found) => yields(state.bind(found.symbol_id, bound), ids, None),
            }
        },
    }
}

/// The end of a block: back to the scope around the block's.
pub open spec fn interpretation_of_leaving(
    state: InterpreterView,
    ids: Seq<u128>,
) -> Interpretation {
    match state.analyzer.leave() {
        Ok(analyzer) => yields(state.with_analyzer(analyzer), ids, None),
        Err(SemanticErrorView::RootScopePopped) => stops(
            state,
            ids,
            InterpretErrorView::RootScopePopped,
        ),
        Err(_) => stops(state, ids, InterpretErrorView::NoCurrentScope),
    }
}

/// The evaluation of `ast` in `state`, with the identities `ids` for the values that it
/// creates: each literal that is evaluated takes one.
pub open spec fn interpretation(
    state: InterpreterView,
    ast: SemanticAstView,
    ids: Seq<u128>,
) -> Interpretation
    decreases ast, 0int,
{
    match ast {
        SemanticAstView::Block(nodes, scope_id) => {
            let body = interpretation_of_statements(
                state.with_analyzer(state.analyzer.enter(scope_id)),
                nodes,
                0,
                ids,
            );
            match body.result {
                Err(error) => body,
                Ok(_) => interpretation_of_leaving(body.state, body.ids),
            }
        },
        SemanticAstView::Number(token) => interpretation_of_literal(
            state,
            number_content(token.value),
            ids,
        ),
        SemanticAstView::Truth(token) => interpretation_of_literal(
            state,
            truth_content(token.value),
            ids,
        ),
        SemanticAstView::Text(token) => interpretation_of_literal(
            state,
            Ok(ContentView::Text(token.value)),
            ids,
        ),
        SemanticAstView::Variable(symbol_id) => interpretation_of_variable(state, symbol_id, ids),
        SemanticAstView::Declaration(symbol_id, _, initializer) => {
            let value = interpretation(state, *initializer, ids);
            match value.result {
                Err(error) => value,
                Ok(initial) => interpretation_of_binding(
                    value.state,
                    symbol_id,
                    true,
                    initial,
                    value.ids,
                ),
            }
        },
        SemanticAstView::Assignment(symbol_id, source) => {
            let value = interpretation(state, *source, ids);
            match value.result {
                Err(error) => value,
                Ok(assigned) => interpretation_of_binding(
                    value.state,
                    symbol_id,
                    false,
                    assigned,
                    value.ids,
                ),
            }
        },
        SemanticAstView::FunctionCall(callee, arguments) => {
            let function = interpretation(state, *callee, ids);
            match function.result {
                Err(error) => function,
                Ok(None) => stops(function.state, function.ids, InterpretErrorView::MissingValue),
                Ok(Some(called)) => match called.content {
                    ContentView::Native(handle) => {
                        let list = interpretation_of_arguments(
                            function.state,
                            arguments,
                            0,
                            function.ids,
                            Seq::empty(),
                        );
                        match list.result {
                            Err(error) => stops(list.state, list.ids, error),
                            Ok(values) => yields(
                                list.state.ask(EffectView::NativeCall(handle, values)),
                                list.ids,
                                None,
                            ),
                        }
                    },
                    _ => stops(function.state, function.ids, InterpretErrorView::NotCallable),
                },
            }
        },
        SemanticAstView::If(condition, body) => {
            let test = interpretation(state, *condition, ids);
            match test.result {
                Err(error) => test,
                Ok(None) => stops(test.state, test.ids, InterpretErrorView::MissingValue),
                Ok(Some(tested)) => if tested.content == ContentView::Bool(true) {
                    let inner = interpretation(test.state, *body, test.ids);
                    match inner.result {
                        Err(error) => inner,
                        Ok(_) => yields(inner.state, inner.ids, None),
                    }
                } else {
                    yields(test.state, test.ids, None)
                },
            }
        },
        SemanticAstView::DebugPrint(operand) => {
            let value = interpretation(state, *operand, ids);
            match value.result {
                Err(error) => value,
                Ok(shown) => yields(
                    value.state.ask(EffectView::DebugPrint(shown)),
                    value.ids,
                    None,
                ),
            }
        },
    }
}

/// The evaluation, one after the other, of the statements from `start` on.
pub open spec fn interpretation_of_statements(
    state: InterpreterView,
    nodes: Seq<SemanticAstView>,
    start: int,
    ids: Seq<u128>,
) -> Interpretation
    decreases nodes, nodes.len() - start,
{
    if !(0 <= start < nodes.len()) {
        yields(state, ids, None)
    } else {
        let next = interpretation(state, nodes[start], ids);
        match next.result {
            Err(error) => next,
            Ok(_) => interpretation_of_statements(next.state, nodes, start + 1, next.ids),
        }
    }
}

/// The evaluation, one after the other, of the arguments from `start` on, after those
/// that gave `found`.
pub open spec fn interpretation_of_arguments(
    state: InterpreterView,
    nodes: Seq<SemanticAstView>,
    start: int,
    ids: Seq<u128>,
    found: Seq<ValueView>,
) -> ArgumentsInterpretation
    decreases nodes, nodes.len() - start,
{
    if !(0 <= start < nodes.len()) {
        ArgumentsInterpretation { state, ids, result: Ok(found) }
    } else {
        let next = interpretation(state, nodes[start], ids);
        match next.result {
            Err(error) => ArgumentsInterpretation {
                state: next.state,
                ids: next.ids,
                result: Err(error),
            },
            Ok(None) => ArgumentsInterpretation {
                state: next.state,
                ids: next.ids,
                result: Err(InterpretErrorView::MissingValue),
            },
            Ok(Some(value)) => interpretation_of_arguments(
                next.state,
                nodes,
                start + 1,
                next.ids,
                found.push(value),
            ),
        }
    }
}

/// What evaluation gives: the value of the last thing evaluated, which a statement does
/// not have.
#[derive(Debug)]
pub struct ExecutionResult {
    pub value: Option<Value>,
}

/// The mathematical value of what evaluating a node returns.
pub open spec fn interpret_outcome(result: Result<ExecutionResult, InterpretError>) -> Result<
    Option<ValueView>,
    InterpretErrorView,
> {
    match result {
        Ok(execution) => Ok(optional_view(execution.value)),
        Err(error) => Err(error@),
    }
}

/// The interpreter: the analyzer, the stored values, the binding of symbols to values,
/// and what the host has been asked to do.
pub struct Interpreter {
    pub value_table: ValueTable,
    pub semantic_analyzer: SemanticAnalyzer,
    symbol_to_value: HashMap<SymbolId, u128>,
    effects: Vec<Effect>,
}

impl View for Interpreter {
    type V = InterpreterView;

    closed spec fn view(&self) -> InterpreterView {
        InterpreterView {
            analyzer: self.semantic_analyzer@,
            values: self.value_table@,
            bindings: self.symbol_to_value@,
            effects: effect_views(self.effects@),
        }
    }
}

/// The state of a new interpreter: the analyzer in its initial state, and nothing
/// stored, bound or asked for.
pub open spec fn initial_interpreter() -> InterpreterView {
    InterpreterView {
        analyzer: crate::base::semantic_analyzer::initial_state(),
        values: Map::empty(),
        bindings: Map::empty(),
        effects: Seq::empty(),
    }
}

impl Interpreter {
    /// A new interpreter, in its initial state.
    pub fn new() -> (interpreter: Interpreter)
        ensures
            interpreter@ == initial_interpreter(),
    {
        let effects: Vec<Effect> = Vec::new();
        proof {
            assert(effect_views(effects@) =~= Seq::<EffectView>::empty());
        }
        Interpreter {
            value_table: ValueTable::new(),
            semantic_analyzer: SemanticAnalyzer::new(),
            symbol_to_value: HashMap::new(),
            effects,
        }
    }

    /// Binds the symbol `symbol_id` to the value with the identity `value_id`.
    pub fn bind_symbol_to_value(&mut self, symbol_id: SymbolId, value_id: u128)
        ensures
            final(self)@ == (InterpreterView {
                bindings: old(self)@.bindings.insert(symbol_id, value_id),
                ..old(self)@
            }),
    {
        broadcast use vstd::std_specs::hash::group_hash_axioms;

        self.symbol_to_value.insert(symbol_id, value_id);
    }

    /// Hands over what the host has been asked to do since the last call, oldest first.
    pub fn take_effects(&mut self) -> (effects: Vec<Effect>)
        ensures
            effect_views(effects@) == old(self)@.effects,
            final(self)@ == (InterpreterView { effects: Seq::empty(), ..old(self)@ }),
    {
        let mut effects: Vec<Effect> = Vec::new();
        proof {
            assert(effect_views(effects@) =~= Seq::<EffectView>::empty());
        }
        std::mem::swap(&mut self.effects, &mut effects);
        effects
    }

    /// Asks the host for `effect`.
    fn ask(&mut self, effect: Effect)
        ensures
            final(self)@ == old(self)@.ask(effect@),
    {
        let ghost before = effect_views(self.effects@);
        self.effects.push(effect);
        proof {
            assert(effect_views(self.effects@) =~= before.push(effect@));
        }
    }

    /// Stores `value` and binds the symbol `symbol_id` to it.
    fn bind(&mut self, symbol_id: SymbolId, value: Value)
        ensures
            final(self)@ == old(self)@.bind(symbol_id, value@),
    {
        self.bind_symbol_to_value(symbol_id, value.uuid);
        self.value_table.insert(value);
    }

    /// A fresh value that holds `content`, with the next identity of `ids`.
    fn literal(&self, content: ValueVariant, ids: &mut Identities) -> (result: Result<
        ExecutionResult,
        InterpretError,
    >)
        ensures
            ({
                let expected = interpretation_of_literal(self@, Ok(content@), old(ids)@);
                &&& final(ids)@ == expected.ids
                &&& interpret_outcome(result) == expected.result
            }),
    {
        match ids.take() {
            None => Err(InterpretError::OutOfIdentities),
            Some(uuid) => Ok(ExecutionResult { value: Some(Value::with_id(content, uuid)) }),
        }
    }

    /// The value that the symbol `symbol_id` denotes.
    fn read(&self, symbol_id: SymbolId) -> (result: Result<ExecutionResult, InterpretError>)
        ensures
            interpret_outcome(result) == interpretation_of_variable(
                self@,
                symbol_id,
                Seq::empty(),
            ).result,
    {
        broadcast use vstd::std_specs::hash::group_hash_axioms;

        match self.semantic_analyzer.current_scope() {
            Err(_) => {
                return Err(InterpretError::NoCurrentScope);
            },
            Ok(_) => {},
        }
        let found = match self.semantic_analyzer.resolve_id_from(
            self.semantic_analyzer.current_scope_id(),
            symbol_id,
        ) {
            None => {
                return Err(InterpretError::SymbolNotFound(symbol_id));
            },
            Some(symbol) => symbol.symbol_id,
        };
        let value_id = match self.symbol_to_value.get(&found) {
            None => {
                return Err(InterpretError::ValueNotFound(found));
            },
            Some(id) => *id,
        };
        match self.value_table.get(value_id) {
            None => Err(InterpretError::ValueNotFound(found)),
            Some(value) => Ok(ExecutionResult { value: Some(value.clone()) }),
        }
    }

    /// Binds `value` to the symbol `symbol_id`, as a declaration or as an assignment does.
    fn write(&mut self, symbol_id: SymbolId, declaring: bool, value: Option<Value>) -> (result:
        Result<ExecutionResult, InterpretError>)
        ensures
            ({
                let expected = interpretation_of_binding(
                    old(self)@,
                    symbol_id,
                    declaring,
                    optional_view(value),
                    Seq::empty(),
                );
                &&& final(self)@ == expected.state
                &&& interpret_outcome(result) == expected.result
            }),
    {
        let bound = match value {
            None => {
                return Err(InterpretError::MissingValue);
            },
            Some(bound) => bound,
        };
        let table = match self.semantic_analyzer.current_scope() {
            Err(_) => {
                return Err(InterpretError::NoCurrentScope);
            },
            Ok(table) => table,
        };
        let symbol = if declaring {
            table.lookup_id(symbol_id)
        } else {
            self.semantic_analyzer.resolve_id_from(
                self.semantic_analyzer.current_scope_id(),
                symbol_id,
            )
        };
        let found = match symbol {
            None => {
                return Err(InterpretError::SymbolNotFound(symbol_id));
            },
            Some(symbol) => symbol.symbol_id,
        };
        self.bind(found, bound);
        Ok(ExecutionResult { value: None })
    }

    /// Goes back to the scope around the current one, at the end of a block.
    fn leave(&mut self) -> (result: Result<ExecutionResult, InterpretError>)
        ensures
            ({
                let expected = interpretation_of_leaving(old(self)@, Seq::empty());
                &&& final(self)@ == expected.state
                &&& interpret_outcome(result) == expected.result
            }),
    {
        match self.semantic_analyzer.pop_scope() {
            Ok(_) => Ok(ExecutionResult { value: None }),
            Err(SemanticError::RootScopePopped) => Err(InterpretError::RootScopePopped),
            Err(_) => Err(InterpretError::NoCurrentScope),
        }
    }

    /// Evaluates `ast`, taking from `ids` the identities of the values that it creates.
    pub fn interpret_with(&mut self, ast: &SemanticAst, ids: &mut Identities) -> (result: Result<
        ExecutionResult,
        InterpretError,
    >)
        ensures
            ({
                let expected = interpretation(old(self)@, ast@, old(ids)@);
                &&& final(self)@ == expected.state
                &&& final(ids)@ == expected.ids
                &&& interpret_outcome(result) == expected.result
            }),
        decreases ast,
    {
        match ast {
            SemanticAst::Block(items, scope_id) => {
                let ghost views = tree_views(items@);
                proof {
                    assert(ast@->Block_0 =~= views);
                }
                self.semantic_analyzer.push_scope(*scope_id);
                let ghost inner = self@;
                let mut i: usize = 0;
                while i < items.len()
                    invariant
                        0 <= i <= items@.len(),
                        views == tree_views(items@),
                        ast@ == SemanticAstView::Block(views, *scope_id),
                        *ast == SemanticAst::Block(*items, *scope_id),
                        inner == old(self)@.with_analyzer(old(self)@.analyzer.enter(*scope_id)),
                        interpretation_of_statements(self@, views, i as int, ids@)
                            == interpretation_of_statements(inner, views, 0, old(ids)@),
                    decreases items@.len() - i,
                {
                    match self.interpret_with(&items[i], ids) {
                        Err(error) => {
                            return Err(error);
                        },
                        Ok(_) => {},
                    }
                    i += 1;
                }
                self.leave()
            },
            SemanticAst::Number(token) => {
                match parse_integer(token.value.as_str()) {
                    None => Err(InterpretError::InvalidNumber(token.value.clone())),
                    Some(number) => self.literal(
                        ValueVariant::Primitive(PrimitiveValue::Int(number)),
                        ids,
                    ),
                }
            },
            SemanticAst::Truth(token) => {
                match parse_truth(&token.value) {
                    None => Err(InterpretError::InvalidTruth(token.value.clone())),
                    Some(truth) => self.literal(
                        ValueVariant::Primitive(PrimitiveValue::Bool(truth)),
                        ids,
                    ),
                }
            },
            SemanticAst::Text(token) => self.literal(
                ValueVariant::Primitive(PrimitiveValue::Text(token.value.clone())),
                ids,
            ),
            SemanticAst::Variable(symbol_id) => self.read(*symbol_id),
            SemanticAst::Declaration(symbol_id, _, initializer) => {
                let value = match self.interpret_with(initializer, ids) {
                    Err(error) => {
                        return Err(error);
                    },
                    Ok(execution) => execution.value,
                };
                self.write(*symbol_id, true, value)
            },
            SemanticAst::Assignment(symbol_id, source) => {
                let value = match self.interpret_with(source, ids) {
                    Err(error) => {
                        return Err(error);
                    },
                    Ok(execution) => execution.value,
                };
                self.write(*symbol_id, false, value)
            },
            SemanticAst::FunctionCall(callee, arguments) => {
                let ghost views = boxed_tree_views(arguments@);
                proof {
                    assert(ast@->FunctionCall_1 =~= views);
                }
                let function = match self.interpret_with(callee, ids) {
                    Err(error) => {
                        return Err(error);
                    },
                    Ok(execution) => execution.value,
                };
                let handle = match function {
                    None => {
                        return Err(InterpretError::MissingValue);
                    },
                    Some(called) => match called.content {
                        ValueVariant::Function(FunctionValue::Native(handle)) => handle,
                        _ => {
                            return Err(InterpretError::NotCallable);
                        },
                    },
                };
                let ghost start = self@;
                let ghost start_ids = ids@;
                let mut values: Vec<Value> = Vec::new();
                proof {
                    assert(value_views(values@) =~= Seq::<ValueView>::empty());
                }
                let mut i: usize = 0;
                while i < arguments.len()
                    invariant
                        0 <= i <= arguments@.len(),
                        views == boxed_tree_views(arguments@),
                        *ast == SemanticAst::FunctionCall(*callee, *arguments),
                        ast@ == SemanticAstView::FunctionCall(Box::new(callee@), views),
                        interpretation(old(self)@, callee@, old(ids)@).state == start,
                        interpretation(old(self)@, callee@, old(ids)@).ids == start_ids,
                        interpretation(old(self)@, callee@, old(ids)@).result matches Ok(
                            Some(called),
                        ) && called.content == ContentView::Native(handle),
                        interpretation_of_arguments(
                            self@,
                            views,
                            i as int,
                            ids@,
                            value_views(values@),
                        ) == interpretation_of_arguments(
                            start,
                            views,
                            0,
                            start_ids,
                            Seq::empty(),
                        ),
                    decreases arguments@.len() - i,
                {
                    let ghost before = value_views(values@);
                    match self.interpret_with(&arguments[i], ids) {
                        Err(error) => {
                            return Err(error);
                        },
                        Ok(execution) => match execution.value {
                            None => {
                                return Err(InterpretError::MissingValue);
                            },
                            Some(value) => {
                                values.push(value);
                                proof {
                                    assert(value_views(values@) =~= before.push(value@));
                                }
                            },
                        },
                    }
                    i += 1;
                }
                self.ask(Effect::NativeCall(handle, values));
                Ok(ExecutionResult { value: None })
            },
            SemanticAst::If(condition, body) => {
                let test = match self.interpret_with(condition, ids) {
                    Err(error) => {
                        return Err(error);
                    },
                    Ok(execution) => execution.value,
                };
                let tested = match test {
                    None => {
                        return Err(InterpretError::MissingValue);
                    },
                    Some(value) => value,
                };
                let holds = match tested.content {
                    ValueVariant::Primitive(PrimitiveValue::Bool(true)) => true,
                    _ => false,
                };
                if holds {
                    match self.interpret_with(body, ids) {
                        Err(error) => {
                            return Err(error);
                        },
                        Ok(_) => {},
                    }
                }
                Ok(ExecutionResult { value: None })
            },
            SemanticAst::DebugPrint(operand) => {
                let shown = match self.interpret_with(operand, ids) {
                    Err(error) => {
                        return Err(error);
                    },
                    Ok(execution) => execution.value,
                };
                self.ask(Effect::DebugPrint(shown));
                Ok(ExecutionResult { value: None })
            },
        }
    }

    /// Evaluates `semantic_ast` with freshly drawn identities for the values that it
    /// creates: what [`Interpreter::interpret_with`] does with some supply that holds one
    /// identity for each literal of the tree.
    pub fn interpret(&mut self, semantic_ast: SemanticAst) -> (result: Result<
        ExecutionResult,
        InterpretError,
    >)
        ensures
            exists|ids: Seq<u128>|
                ids.len() == capped(values_needed(semantic_ast@)) && all_random(ids)
                    && #[trigger] is_interpretation(
                    old(self)@,
                    semantic_ast@,
                    ids,
                    final(self)@,
                    interpret_outcome(result),
                ),
    {
        let mut ids = Identities::draw(count_values(&semantic_ast));
        let ghost supplied = ids@;
        let result = self.interpret_with(&semantic_ast, &mut ids);
        proof {
            assert(is_interpretation(
                old(self)@,
                semantic_ast@,
                supplied,
                self@,
                interpret_outcome(result),
            ));
        }
        result
    }

    /// Runs `statements` as the top level of a program: in the top-level scope, each is
    /// analyzed and then evaluated, in order, up to the first that fails.
    pub fn run(&mut self, statements: &Vec<Node>, ids: &mut Identities) -> (result: Result<
        ExecutionResult,
        EvalError,
    >)
        ensures
            ({
                let expected = evaluation_of_program(
                    old(self)@,
                    node_views(statements@),
                    old(ids)@,
                );
                &&& final(self)@ == expected.state
                &&& final(ids)@ == expected.ids
                &&& eval_outcome(result) == expected.result
            }),
    {
        let ghost views = node_views(statements@);
        let repl_id = self.semantic_analyzer.repl_scope_id();
        self.semantic_analyzer.push_scope(repl_id);
        let ghost entered = self@;
        let mut last: Option<Value> = None;
        let mut i: usize = 0;
        while i < statements.len()
            invariant
                0 <= i <= statements@.len(),
                views == node_views(statements@),
                entered == old(self)@.with_analyzer(
                    old(self)@.analyzer.enter(old(self)@.analyzer.repl_scope_id),
                ),
                evaluation_of_statements(self@, views, i as int, ids@, optional_view(last))
                    == evaluation_of_statements(entered, views, 0, old(ids)@, None),
            decreases statements@.len() - i,
        {
            let analyzed = match self.semantic_analyzer.analyze_with(&statements[i], ids) {
                Err(error) => {
                    return Err(EvalError::Semantic(error));
                },
                Ok(analyzed) => analyzed,
            };
            match self.interpret_with(&analyzed.node, ids) {
                Err(error) => {
                    return Err(EvalError::Internal(error));
                },
                Ok(execution) => {
                    last = execution.value;
                },
            }
            i += 1;
        }
        match self.semantic_analyzer.pop_scope() {
            Err(error) => Err(EvalError::Semantic(error)),
            Ok(_) => Ok(ExecutionResult { value: last }),
        }
    }

    /// Evaluates the source text `code`, taking from `ids` every identity that analysis
    /// and evaluation need.
    pub fn eval_with(&mut self, code: String, ids: &mut Identities) -> (result: Result<
        ExecutionResult,
        EvalError,
    >)
        ensures
            ({
                let expected = evaluation(old(self)@, code@, old(ids)@);
                &&& final(self)@ == expected.state
                &&& final(ids)@ == expected.ids
                &&& eval_outcome(result) == expected.result
            }),
    {
        match parse_source(code) {
            Err(error) => Err(error),
            Ok(statements) => self.run(&statements, ids),
        }
    }

    /// Evaluates the source text `code` with freshly drawn identities: what
    /// [`Interpreter::eval_with`] does with some supply that holds as many identities as
    /// `code` can need.
    pub fn eval(&mut self, code: String) -> (result: Result<ExecutionResult, EvalError>)
        ensures
            exists|ids: Seq<u128>|
                supplies_evaluation(code@, ids) && all_random(ids) && #[trigger] is_evaluation(
                    old(self)@,
                    code@,
                    ids,
                    final(self)@,
                    eval_outcome(result),
                ),
    {
        match parse_source(code) {
            Err(error) => {
                proof {
                    assert(is_evaluation(
                        old(self)@,
                        code@,
                        Seq::empty(),
                        self@,
                        Err(error@),
                    ));
                }
                Err(error)
            },
            Ok(statements) => {
                let count = count_needs_of(&statements);
                let mut ids = Identities::draw(count);
                let ghost supplied = ids@;
                let result = self.run(&statements, &mut ids);
                proof {
                    assert(is_evaluation(old(self)@, code@, supplied, self@, eval_outcome(result)));
                }
                result
            },
        }
    }
}

/// The number of identities that the evaluation of `node` takes at most: one for each
/// literal.
pub open spec fn values_needed(node: SemanticAstView) -> nat
    decreases node, 0int,
{
    match node {
        SemanticAstView::Block(nodes, _) => values_needed_from(nodes, 0),
        SemanticAstView::Number(_) => 1,
        SemanticAstView::Truth(_) => 1,
        SemanticAstView::Text(_) => 1,
        SemanticAstView::Variable(_) => 0,
        SemanticAstView::Declaration(_, _, value) => values_needed(*value),
        SemanticAstView::Assignment(_, value) => values_needed(*value),
        SemanticAstView::FunctionCall(callee, arguments) => values_needed(*callee)
            + values_needed_from(arguments, 0),
        SemanticAstView::If(condition, body) => values_needed(*condition) + values_needed(*body),
        SemanticAstView::DebugPrint(value) => values_needed(*value),
    }
}

/// The number of identities that the evaluation of the nodes from `start` on takes at
/// most.
pub open spec fn values_needed_from(nodes: Seq<SemanticAstView>, start: int) -> nat
    decreases nodes, nodes.len() - start,
{
    if 0 <= start < nodes.len() {
        values_needed(nodes[start]) + values_needed_from(nodes, start + 1)
    } else {
        0
    }
}

/// The number of identities that the evaluation of `node` takes at most, capped at the
/// largest count.
pub fn count_values(node: &SemanticAst) -> (count: usize)
    ensures
        count == capped(values_needed(node@)),
    decreases node,
{
    match node {
        SemanticAst::Block(nodes, _) => {
            proof {
                assert(node@->Block_0 =~= tree_views(nodes@));
            }
            count_values_of(nodes)
        },
        SemanticAst::Number(_) => 1,
        SemanticAst::Truth(_) => 1,
        SemanticAst::Text(_) => 1,
        SemanticAst::Variable(_) => 0,
        SemanticAst::Declaration(_, _, value) => count_values(value),
        SemanticAst::Assignment(_, value) => count_values(value),
        SemanticAst::FunctionCall(callee, arguments) => {
            proof {
                assert(node@->FunctionCall_1 =~= boxed_tree_views(arguments@));
            }
            capped_sum(count_values(callee), count_values_of_boxed(arguments))
        },
        SemanticAst::If(condition, body) => capped_sum(
            count_values(condition),
            count_values(body),
        ),
        SemanticAst::DebugPrint(value) => count_values(value),
    }
}

/// The number of identities that the evaluation of `nodes` takes at most, capped at the
/// largest count.
fn count_values_of(nodes: &Vec<SemanticAst>) -> (count: usize)
    ensures
        count == capped(values_needed_from(tree_views(nodes@), 0)),
    decreases nodes,
{
    let ghost views = tree_views(nodes@);
    let mut count: usize = 0;
    let mut i: usize = nodes.len();
    while i > 0
        invariant
            0 <= i <= nodes@.len(),
            views == tree_views(nodes@),
            count == capped(values_needed_from(views, i as int)),
        decreases i,
    {
        i -= 1;
        count = capped_sum(count_values(&nodes[i]), count);
    }
    count
}

/// The number of identities that the evaluation of the boxed `nodes` takes at most,
/// capped at the largest count.
fn count_values_of_boxed(nodes: &Vec<SemanticNode>) -> (count: usize)
    ensures
        count == capped(values_needed_from(boxed_tree_views(nodes@), 0)),
    decreases nodes,
{
    let ghost views = boxed_tree_views(nodes@);
    let mut count: usize = 0;
    let mut i: usize = nodes.len();
    while i > 0
        invariant
            0 <= i <= nodes@.len(),
            views == boxed_tree_views(nodes@),
            count == capped(values_needed_from(views, i as int)),
        decreases i,
    {
        i -= 1;
        count = capped_sum(count_values(&nodes[i]), count);
    }
    count
}

/// Whether evaluating `node` in the state `before` with the identities `ids` leads to
/// the state `after` and gives `result`.
pub open spec fn is_interpretation(
    before: InterpreterView,
    node: SemanticAstView,
    ids: Seq<u128>,
    after: InterpreterView,
    result: Result<Option<ValueView>, InterpretErrorView>,
) -> bool {
    &&& interpretation(before, node, ids).state == after
    &&& interpretation(before, node, ids).result == result
}

/// Why a source text could not be evaluated.
#[derive(Debug)]
pub enum EvalError {
    /// The text is no sequence of tokens.
    Lexical(LexError),
    /// The tokens are no sequence of statements.
    Syntactic(Error),
    /// A statement was rejected by the analyzer.
    Semantic(SemanticError),
    /// Evaluation of an analyzed statement stopped.
    Internal(InterpretError),
}

/// The mathematical value of an [`EvalError`].
pub enum EvalErrorView {
    Lexical(LexError),
    Syntactic(ErrorView),
    Semantic(SemanticErrorView),
    Internal(InterpretErrorView),
}

impl View for EvalError {
    type V = EvalErrorView;

    open spec fn view(&self) -> EvalErrorView {
        match self {
            EvalError::Lexical(error) => EvalErrorView::Lexical(*error),
            EvalError::Syntactic(error) => EvalErrorView::Syntactic(error@),
            EvalError::Semantic(error) => EvalErrorView::Semantic(error@),
            EvalError::Internal(error) => EvalErrorView::Internal(error@),
        }
    }
}

/// The mathematical value of what evaluating a source text returns.
pub open spec fn eval_outcome(result: Result<ExecutionResult, EvalError>) -> Result<
    Option<ValueView>,
    EvalErrorView,
> {
    match result {
        Ok(execution) => Ok(optional_view(execution.value)),
        Err(error) => Err(error@),
    }
}

/// What evaluating a source text gives: the interpreter's state afterwards, the
/// identities that are left, and the value of the last statement or the error.
pub struct Evaluation {
    pub state: InterpreterView,
    pub ids: Seq<u128>,
    pub result: Result<Option<ValueView>, EvalErrorView>,
}

/// The statements that the source text `code` consists of.
pub open spec fn source_statements(code: Seq<char>) -> Result<Seq<AstView>, EvalErrorView> {
    match tokens_of(code) {
        Err(error) => Err(EvalErrorView::Lexical(error)),
        Ok(tokens) => match statement_list(tokens, 0).result {
            Err(error) => Err(EvalErrorView::Syntactic(error)),
            Ok(statements) => Ok(statements),
        },
    }
}

/// The analysis and evaluation, one after the other, of the statements from `start` on;
/// `last` is the value of the statement before them.
pub open spec fn evaluation_of_statements(
    state: InterpreterView,
    statements: Seq<AstView>,
    start: int,
    ids: Seq<u128>,
    last: Option<ValueView>,
) -> Evaluation
    decreases statements.len() - start,
{
    if !(0 <= start < statements.len()) {
        Evaluation { state, ids, result: Ok(last) }
    } else {
        let checked = analysis(state.analyzer, statements[start], ids);
        match checked.result {
            Err(error) => Evaluation {
                state: state.with_analyzer(checked.state),
                ids: checked.ids,
                result: Err(EvalErrorView::Semantic(error)),
            },
            Ok(analyzed) => {
                let run = interpretation(
                    state.with_analyzer(checked.state),
                    analyzed.node,
                    checked.ids,
                );
                match run.result {
                    Err(error) => Evaluation {
                        state: run.state,
                        ids: run.ids,
                        result: Err(EvalErrorView::Internal(error)),
                    },
                    Ok(value) => evaluation_of_statements(
                        run.state,
                        statements,
                        start + 1,
                        run.ids,
                        value,
                    ),
                }
            },
        }
    }
}

/// The evaluation of `statements` as the top level of a program: the top-level scope is
/// entered, the statements are analyzed and evaluated up to the first that fails, and,
/// if none fails, the scope is left again.
pub open spec fn evaluation_of_program(
    state: InterpreterView,
    statements: Seq<AstView>,
    ids: Seq<u128>,
) -> Evaluation {
    let run = evaluation_of_statements(
        state.with_analyzer(state.analyzer.enter(state.analyzer.repl_scope_id)),
        statements,
        0,
        ids,
        None,
    );
    match run.result {
        Err(error) => run,
        Ok(last) => match run.state.analyzer.leave() {
            Err(error) => Evaluation {
                state: run.state,
                ids: run.ids,
                result: Err(EvalErrorView::Semantic(error)),
            },
            Ok(analyzer) => Evaluation {
                state: run.state.with_analyzer(analyzer),
                ids: run.ids,
                result: Ok(last),
            },
        },
    }
}

/// The evaluation of the source text `code` in `state`, with the identities `ids`.
pub open spec fn evaluation(state: InterpreterView, code: Seq<char>, ids: Seq<u128>) -> Evaluation {
    match source_statements(code) {
        Err(error) => Evaluation { state, ids, result: Err(error) },
        Ok(statements) => evaluation_of_program(state, statements, ids),
    }
}

/// Whether evaluating `code` in the state `before` with the identities `ids` leads to
/// the state `after` and gives `result`.
pub open spec fn is_evaluation(
    before: InterpreterView,
    code: Seq<char>,
    ids: Seq<u128>,
    after: InterpreterView,
    result: Result<Option<ValueView>, EvalErrorView>,
) -> bool {
    &&& evaluation(before, code, ids).state == after
    &&& evaluation(before, code, ids).result == result
}

/// Whether `ids` holds as many identities as evaluating `code` can need, or as many as
/// a machine can count.
pub open spec fn supplies_evaluation(code: Seq<char>, ids: Seq<u128>) -> bool {
    match source_statements(code) {
        Err(_) => ids.len() == 0,
        Ok(statements) => ids.len() == capped(needs_from(statements, 0)),
    }
}

/// The number of identities that analyzing and evaluating `ast` takes at most: one for
/// each block, each declaration and each literal.
pub open spec fn needs(ast: AstView) -> nat
    decreases ast, 0int,
{
    match ast {
        AstView::Block(nodes) => 1 + needs_from(nodes, 0),
        AstView::Number(_) => 1,
        AstView::Truth(_) => 1,
        AstView::Text(_) => 1,
        AstView::Variable(_) => 0,
        AstView::Assignment(target, value) => needs(*value),
        AstView::Declaration(_, value) => 1 + needs(*value),
        AstView::FunctionCall(callee, arguments) => needs(*callee) + needs_from(arguments, 0),
        AstView::If(condition, body) => needs(*condition) + needs(*body),
        AstView::DebugPrint(value) => needs(*value),
    }
}

/// The number of identities that analyzing and evaluating the nodes from `start` on
/// takes at most.
pub open spec fn needs_from(nodes: Seq<AstView>, start: int) -> nat
    decreases nodes, nodes.len() - start,
{
    if 0 <= start < nodes.len() {
        needs(nodes[start]) + needs_from(nodes, start + 1)
    } else {
        0
    }
}

/// The number of identities that analyzing and evaluating `ast` takes at most, capped at
/// the largest count.
pub fn count_needs(ast: &Ast) -> (count: usize)
    ensures
        count == capped(needs(ast@)),
    decreases ast,
{
    match ast {
        Ast::Block(nodes) => {
            proof {
                assert(ast@->Block_0 =~= node_views(nodes@));
            }
            capped_sum(1, count_needs_of(nodes))
        },
        Ast::Number(_) => 1,
        Ast::Truth(_) => 1,
        Ast::Text(_) => 1,
        Ast::Variable(_) => 0,
        Ast::Assignment(_, value) => count_needs(value),
        Ast::Declaration(_, value) => capped_sum(1, count_needs(value)),
        Ast::FunctionCall(callee, arguments) => {
            proof {
                assert(ast@->FunctionCall_1 =~= node_views(arguments@));
            }
            capped_sum(count_needs(callee), count_needs_of(arguments))
        },
        Ast::If(condition, body) => capped_sum(count_needs(condition), count_needs(body)),
        Ast::DebugPrint(value) => count_needs(value),
    }
}

/// The number of identities that analyzing and evaluating `nodes` takes at most, capped
/// at the largest count.
pub fn count_needs_of(nodes: &Vec<Node>) -> (count: usize)
    ensures
        count == capped(needs_from(node_views(nodes@), 0)),
    decreases nodes,
{
    let ghost views = node_views(nodes@);
    let mut count: usize = 0;
    let mut i: usize = nodes.len();
    while i > 0
        invariant
            0 <= i <= nodes@.len(),
            views == node_views(nodes@),
            count == capped(needs_from(views, i as int)),
        decreases i,
    {
        i -= 1;
        count = capped_sum(count_needs(&nodes[i]), count);
    }
    count
}

/// Lexes and parses the source text `code` into its statements.
pub fn parse_source(code: String) -> (result: Result<Vec<Node>, EvalError>)
    ensures
        match source_statements(code@) {
            Ok(statements) => result matches Ok(nodes) && node_views(nodes@) == statements,
            Err(error) => result matches Err(e) && e@ == error,
        },
{
    let lexer = Lexer::new(code);
    let tokens = match lexer.collect() {
        Err(error) => {
            return Err(EvalError::Lexical(error));
        },
        Ok(tokens) => tokens,
    };
    let mut parser = Parser::new(tokens);
    match parser.statement_list() {
        Err(error) => Err(EvalError::Syntactic(error)),
        Ok(statements) => Ok(statements),
    }
}

/// What binding a native function gives: the interpreter's state afterwards, the
/// identities that are left, and whether it succeeded.
pub struct NativeBinding {
    pub state: InterpreterView,
    pub ids: Seq<u128>,
    pub result: Result<(), SemanticErrorView>,
}

/// The type symbol of a function without arguments and without a return value, as
/// named in `state`, with the identity `symbol_id`.
pub open spec fn void_function_type(state: InterpreterView, symbol_id: u128) -> SymbolView {
    SymbolView {
        name: function_type_name(
            state.analyzer.scopes,
            state.analyzer.current_scope_id,
            None,
            Seq::empty(),
        ),
        symbol_id,
        variant: VariantView::FunctionType { return_id: None, argument_ids: Seq::empty() },
    }
}

/// The binding of the native function `handle` to `name`, with three identities from
/// `ids`: the function's type goes into the global scope under the first, the function
/// into the current scope under the second, and its value is stored under the third and
/// bound to the function. Without three identities, or if the global or the current
/// scope is not in the forest, nothing changes.
pub open spec fn binding_of_void_function(
    state: InterpreterView,
    name: Seq<char>,
    handle: NativeFn,
    ids: Seq<u128>,
) -> NativeBinding {
    if !state.analyzer.scopes.contains_key(state.analyzer.global_scope_id)
        || !state.analyzer.scopes.contains_key(state.analyzer.current_scope_id) {
        NativeBinding { state, ids, result: Err(SemanticErrorView::NoCurrentScope) }
    } else if ids.len() < 3 {
        NativeBinding { state, ids, result: Err(SemanticErrorView::OutOfIdentities) }
    } else {
        let function = SymbolView {
            name,
            symbol_id: ids[1],
            variant: VariantView::NativeFunction(ids[0]),
        };
        let analyzer = state.analyzer.put_in(
            state.analyzer.global_scope_id,
            void_function_type(state, ids[0]),
        ).put_in(state.analyzer.current_scope_id, function);
        NativeBinding {
            state: state.with_analyzer(analyzer).bind(
                ids[1],
                ValueView { content: ContentView::Native(handle), uuid: ids[2] },
            ),
            ids: ids.skip(3),
            result: Ok(()),
        }
    }
}

/// Whether binding `handle` to `name` in the state `before` with the identities `ids`
/// leads to the state `after` and gives `result`.
pub open spec fn is_binding(
    before: InterpreterView,
    name: Seq<char>,
    handle: NativeFn,
    ids: Seq<u128>,
    after: InterpreterView,
    result: Result<(), SemanticErrorView>,
) -> bool {
    &&& binding_of_void_function(before, name, handle, ids).state == after
    &&& binding_of_void_function(before, name, handle, ids).result == result
}

/// The mathematical value of what binding a native function returns.
pub open spec fn binding_outcome(result: Result<(), SemanticError>) -> Result<
    (),
    SemanticErrorView,
> {
    match result {
        Ok(_) => Ok(()),
        Err(error) => Err(error@),
    }
}

impl Interpreter {
    /// Binds the native function `f` to `name`, taking three identities from `ids`.
    pub fn bind_void_function_with(
        &mut self,
        name: &str,
        f: NativeFn,
        ids: &mut Identities,
    ) -> (result: Result<(), SemanticError>)
        ensures
            ({
                let expected = binding_of_void_function(old(self)@, name@, f, old(ids)@);
                &&& final(self)@ == expected.state
                &&& final(ids)@ == expected.ids
                &&& binding_outcome(result) == expected.result
            }),
    {
        let global_id = self.semantic_analyzer.global_scope_id();
        let current_id = self.semantic_analyzer.current_scope_id();
        if self.semantic_analyzer.scope(global_id).is_none() || self.semantic_analyzer.scope(
            current_id,
        ).is_none() {
            return Err(SemanticError::NoCurrentScope);
        }
        if ids.remaining() < 3 {
            return Err(SemanticError::OutOfIdentities);
        }
        let ghost supplied = ids@;
        let type_id = match ids.take() {
            Some(id) => id,
            None => {
                return Err(SemanticError::OutOfIdentities);
            },
        };
        let function_id = match ids.take() {
            Some(id) => id,
            None => {
                return Err(SemanticError::OutOfIdentities);
            },
        };
        let value_id = match ids.take() {
            Some(id) => id,
            None => {
                return Err(SemanticError::OutOfIdentities);
            },
        };
        proof {
            assert(ids@ =~= supplied.skip(3));
        }
        let no_arguments: Vec<u128> = Vec::new();
        let function_type_name = FunctionTypeSymbol::construct_type_name(
            None,
            no_arguments,
            &self.semantic_analyzer,
        );
        let function_type = Symbol {
            name: function_type_name,
            symbol_id: type_id,
            variant: SymbolVariant::FunctionType(FunctionTypeSymbol::new(None, Vec::new())),
        };
        let function_symbol = Symbol {
            name: name.to_owned(),
            symbol_id: function_id,
            variant: SymbolVariant::NativeFunction(NativeFunctionSymbol::new(type_id)),
        };
        match self.semantic_analyzer.insert_into(global_id, function_type) {
            Err(error) => {
                return Err(error);
            },
            Ok(_) => {},
        }
        match self.semantic_analyzer.insert_into(current_id, function_symbol) {
            Err(error) => {
                return Err(error);
            },
            Ok(_) => {},
        }
        let value = Value::with_id(ValueVariant::Function(FunctionValue::Native(f)), value_id);
        self.value_table.insert(value);
        self.bind_symbol_to_value(function_id, value_id);
        proof {
            let expected = binding_of_void_function(old(self)@, name@, f, supplied);
            assert(self@.values =~= expected.state.values);
            assert(self@.bindings =~= expected.state.bindings);
        }
        Ok(())
    }
}

/// How an error of evaluation is described to a reader.
pub open spec fn interpret_error_description(error: InterpretErrorView) -> Seq<char> {
    match error {
        InterpretErrorView::InvalidNumber(text) => "Invalid integer literal: "@ + text,
        InterpretErrorView::InvalidTruth(text) => "Invalid truth literal: "@ + text,
        InterpretErrorView::SymbolNotFound(_) => "Symbol not found"@,
        InterpretErrorView::ValueNotFound(_) => "Value not found"@,
        InterpretErrorView::MissingValue => "Semantic analysis error. Should have value"@,
        InterpretErrorView::NotCallable => "Value is not a function"@,
        InterpretErrorView::NoCurrentScope => "There should always be a scope"@,
        InterpretErrorView::RootScopePopped => "The root scope has no parent to go back to"@,
        InterpretErrorView::OutOfIdentities => "The supply of identities is used up"@,
    }
}

/// How an error of any stage is described to a reader.
pub open spec fn eval_error_description(error: EvalErrorView) -> Seq<char> {
    match error {
        EvalErrorView::Lexical(inner) => lex_error_description(inner),
        EvalErrorView::Syntactic(inner) => error_description(inner),
        EvalErrorView::Semantic(inner) => semantic_error_description(inner),
        EvalErrorView::Internal(inner) => interpret_error_description(inner),
    }
}

impl InterpretError {
    /// A description of this error for a reader.
    pub fn description(&self) -> (text: String)
        ensures
            text@ == interpret_error_description(self@),
    {
        match self {
            InterpretError::InvalidNumber(literal) => {
                let mut text = "Invalid integer literal: ".to_owned();
                text.append(literal.as_str());
                text
            },
            InterpretError::InvalidTruth(literal) => {
                let mut text = "Invalid truth literal: ".to_owned();
                text.append(literal.as_str());
                text
            },
            InterpretError::SymbolNotFound(_) => "Symbol not found".to_owned(),
            InterpretError::ValueNotFound(_) => "Value not found".to_owned(),
            InterpretError::MissingValue =>
                "Semantic analysis error. Should have value".to_owned(),
            InterpretError::NotCallable => "Value is not a function".to_owned(),
            InterpretError::NoCurrentScope => "There should always be a scope".to_owned(),
            InterpretError::RootScopePopped =>
                "The root scope has no parent to go back to".to_owned(),
            InterpretError::OutOfIdentities => "The supply of identities is used up".to_owned(),
        }
    }
}

impl EvalError {
    /// A description of this error for a reader.
    pub fn description(&self) -> (text: String)
        ensures
            text@ == eval_error_description(self@),
    {
        match self {
            EvalError::Lexical(inner) => inner.description(),
            EvalError::Syntactic(inner) => inner.description(),
            EvalError::Semantic(inner) => inner.description(),
            EvalError::Internal(inner) => inner.description(),
        }
    }
}

} // verus!
