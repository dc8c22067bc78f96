//! Semantic analysis: name resolution and type checking over a forest of scopes.

use crate::base::lexer::{Token, TokenView};
use crate::base::parser::{node_views, Ast, AstView, Node};
use crate::identity::{all_random, is_random_uuid, random_identity, Identities};
use std::collections::HashMap;
use vstd::prelude::*;

verus! {

/// The identity of a symbol.
pub type SymbolId = u128;

/// The identity of a scope.
pub type TableId = u128;

/// The identity of the integer type. The primitive types and the two scopes that every
/// analyzer starts with have fixed identities; they are small numbers, which no random
/// (version 4) UUID equals.
pub const INT_TYPE_ID: SymbolId = 1;

/// The identity of the decimal type.
pub const DEC_TYPE_ID: SymbolId = 2;

/// The identity of the text type.
pub const TEXT_TYPE_ID: SymbolId = 3;

/// The identity of the truth type.
pub const TRUTH_TYPE_ID: SymbolId = 4;

/// The identity of the global scope, the root of the forest.
pub const GLOBAL_SCOPE_ID: TableId = 5;

/// The identity of the scope that holds what is declared at the top level.
pub const REPL_SCOPE_ID: TableId = 6;

/// What a variable symbol holds: the identity of its type.
#[derive(Debug, Clone, Copy)]
pub struct VariableSymbol {
    pub type_id: SymbolId,
}

/// What a function-type symbol holds: the identities of the argument types, in order,
/// and of the return type, if there is one.
#[derive(Debug)]
pub struct FunctionTypeSymbol {
    pub return_id: Option<SymbolId>,
    pub argument_ids: Vec<SymbolId>,
}

/// What a native-function symbol holds: the identity of its function type.
#[derive(Debug, Clone, Copy)]
pub struct NativeFunctionSymbol {
    pub type_id: SymbolId,
}

/// The kinds of symbol.
#[derive(Debug)]
pub enum SymbolVariant {
    Variable(VariableSymbol),
    /// A primitive type, which has a name and nothing else.
    Primitive,
    FunctionType(FunctionTypeSymbol),
    NativeFunction(NativeFunctionSymbol),
}

/// A named entity that the analyzer knows.
#[derive(Debug)]
pub struct Symbol {
    pub name: String,
    pub symbol_id: SymbolId,
    pub variant: SymbolVariant,
}

/// The mathematical value of a [`SymbolVariant`].
pub enum VariantView {
    Variable(SymbolId),
    Primitive,
    FunctionType { return_id: Option<SymbolId>, argument_ids: Seq<SymbolId> },
    NativeFunction(SymbolId),
}

/// The mathematical value of a [`Symbol`].
pub struct SymbolView {
    pub name: Seq<char>,
    pub symbol_id: SymbolId,
    pub variant: VariantView,
}

impl View for SymbolVariant {
    type V = VariantView;

    open spec fn view(&self) -> VariantView {
        match self {
            SymbolVariant::Variable(variable) => VariantView::Variable(variable.type_id),
            SymbolVariant::Primitive => VariantView::Primitive,
            SymbolVariant::FunctionType(function) => VariantView::FunctionType {
                return_id: function.return_id,
                argument_ids: function.argument_ids@,
            },
            SymbolVariant::NativeFunction(function) => VariantView::NativeFunction(
                function.type_id,
            ),
        }
    }
}

impl View for Symbol {
    type V = SymbolView;

    open spec fn view(&self) -> SymbolView {
        SymbolView { name: self.name@, symbol_id: self.symbol_id, variant: self.variant@ }
    }
}

impl Clone for FunctionTypeSymbol {
    fn clone(&self) -> (copy: Self)
        ensures
            copy.return_id == self.return_id,
            copy.argument_ids@ == self.argument_ids@,
    {
        let argument_ids = self.argument_ids.clone();
        proof {
            assert(argument_ids@ =~= self.argument_ids@);
        }
        FunctionTypeSymbol { return_id: self.return_id, argument_ids }
    }
}

impl Clone for SymbolVariant {
    fn clone(&self) -> (copy: Self)
        ensures
            copy@ == self@,
    {
        match self {
            SymbolVariant::Variable(variable) => SymbolVariant::Variable(*variable),
            SymbolVariant::Primitive => SymbolVariant::Primitive,
            SymbolVariant::FunctionType(function) => SymbolVariant::FunctionType(
                function.clone(),
            ),
            SymbolVariant::NativeFunction(function) => SymbolVariant::NativeFunction(*function),
        }
    }
}

impl Clone for Symbol {
    fn clone(&self) -> (copy: Self)
        ensures
            copy@ == self@,
    {
        Symbol {
            name: self.name.clone(),
            symbol_id: self.symbol_id,
            variant: self.variant.clone(),
        }
    }
}

/// The mathematical values of a sequence of symbols.
pub open spec fn symbol_views(symbols: Seq<Symbol>) -> Seq<SymbolView> {
    symbols.map_values(|symbol: Symbol| symbol@)
}

/// The position, from `start` on, of the first symbol named `name`.
pub open spec fn index_of_name(symbols: Seq<SymbolView>, start: int, name: Seq<char>) -> Option<int>
    decreases symbols.len() - start,
{
    if !(0 <= start < symbols.len()) {
        None
    } else if symbols[start].name == name {
        Some(start)
    } else {
        index_of_name(symbols, start + 1, name)
    }
}

/// The position, from `start` on, of the first symbol with the identity `id`.
pub open spec fn index_of_id(symbols: Seq<SymbolView>, start: int, id: SymbolId) -> Option<int>
    decreases symbols.len() - start,
{
    if !(0 <= start < symbols.len()) {
        None
    } else if symbols[start].symbol_id == id {
        Some(start)
    } else {
        index_of_id(symbols, start + 1, id)
    }
}

/// The first symbol named `name`.
pub open spec fn find_name(symbols: Seq<SymbolView>, name: Seq<char>) -> Option<SymbolView> {
    match index_of_name(symbols, 0, name) {
        Some(i) => Some(symbols[i]),
        None => None,
    }
}

/// The symbol with the identity `id`.
pub open spec fn find_id(symbols: Seq<SymbolView>, id: SymbolId) -> Option<SymbolView> {
    match index_of_id(symbols, 0, id) {
        Some(i) => Some(symbols[i]),
        None => None,
    }
}

/// The symbols after `symbol` is put among them: in the place of the one that has its
/// identity, or at the end if none has.
pub open spec fn put(symbols: Seq<SymbolView>, symbol: SymbolView) -> Seq<SymbolView> {
    match index_of_id(symbols, 0, symbol.symbol_id) {
        Some(i) => symbols.update(i, symbol),
        None => symbols.push(symbol),
    }
}

/// A position found from `start` on lies in the sequence, not before `start`, and is the
/// first that holds the name.
pub proof fn lemma_index_of_name(symbols: Seq<SymbolView>, start: int, name: Seq<char>)
    requires
        0 <= start,
    ensures
        match index_of_name(symbols, start, name) {
            Some(i) => start <= i < symbols.len() && symbols[i].name == name && forall|j: int|
                start <= j < i ==> symbols[j].name != name,
            None => forall|j: int| start <= j < symbols.len() ==> symbols[j].name != name,
        },
    decreases symbols.len() - start,
{
    if start < symbols.len() && symbols[start].name != name {
        lemma_index_of_name(symbols, start + 1, name);
    }
}

/// A position found from `start` on lies in the sequence, not before `start`, and is the
/// first that holds the identity.
pub proof fn lemma_index_of_id(symbols: Seq<SymbolView>, start: int, id: SymbolId)
    requires
        0 <= start,
    ensures
        match index_of_id(symbols, start, id) {
            Some(i) => start <= i < symbols.len() && symbols[i].symbol_id == id && forall|j: int|
                start <= j < i ==> symbols[j].symbol_id != id,
            None => forall|j: int| start <= j < symbols.len() ==> symbols[j].symbol_id != id,
        },
    decreases symbols.len() - start,
{
    if start < symbols.len() && symbols[start].symbol_id != id {
        lemma_index_of_id(symbols, start + 1, id);
    }
}

/// After a symbol is put among others, the symbol that has its identity is the symbol
/// itself.
pub proof fn lemma_put_then_find_id(symbols: Seq<SymbolView>, symbol: SymbolView)
    ensures
        find_id(put(symbols, symbol), symbol.symbol_id) == Some(symbol),
{
    let id = symbol.symbol_id;
    let after = put(symbols, symbol);
    lemma_index_of_id(symbols, 0, id);
    lemma_index_of_id(after, 0, id);
    let place: int = match index_of_id(symbols, 0, id) {
        Some(i) => i,
        None => symbols.len() as int,
    };
    assert(after[place] == symbol);
    assert forall|j: int| 0 <= j < place implies after[j].symbol_id != id by {
        assert(after[j] == symbols[j]);
    }
    match index_of_id(after, 0, id) {
        Some(k) => {
            if k < place {
                assert(after[k].symbol_id != id);
            }
        },
        None => {
            assert(after[place].symbol_id != id);
        },
    }
}

/// After a symbol is put among others, the first symbol of its name is the symbol
/// itself, if none had the name before.
pub proof fn lemma_put_then_find_name(symbols: Seq<SymbolView>, symbol: SymbolView)
    requires
        find_name(symbols, symbol.name) is None,
    ensures
        find_name(put(symbols, symbol), symbol.name) == Some(symbol),
{
    let id = symbol.symbol_id;
    let name = symbol.name;
    let after = put(symbols, symbol);
    lemma_index_of_id(symbols, 0, id);
    lemma_index_of_name(symbols, 0, name);
    lemma_index_of_name(after, 0, name);
    let place: int = match index_of_id(symbols, 0, id) {
        Some(i) => i,
        None => symbols.len() as int,
    };
    assert(after[place] == symbol);
    assert forall|j: int| 0 <= j < after.len() && j != place implies after[j].name != name by {
        assert(after[j] == symbols[j]);
    }
    match index_of_name(after, 0, name) {
        Some(k) => {
            if k != place {
                assert(after[k].name != name);
            }
        },
        None => {
            assert(after[place].name != name);
        },
    }
}

/// Whether no two symbols of `symbols` have the same identity.
pub open spec fn distinct_ids(symbols: Seq<SymbolView>) -> bool {
    forall|i: int, j: int|
        0 <= i < j < symbols.len() ==> symbols[i].symbol_id != symbols[j].symbol_id
}

/// Putting a symbol among symbols of which no two have the same identity leaves it so.
pub proof fn lemma_put_keeps_distinct(symbols: Seq<SymbolView>, symbol: SymbolView)
    requires
        distinct_ids(symbols),
    ensures
        distinct_ids(put(symbols, symbol)),
{
    let after = put(symbols, symbol);
    lemma_index_of_id(symbols, 0, symbol.symbol_id);
    match index_of_id(symbols, 0, symbol.symbol_id) {
        Some(place) => {
            assert forall|i: int, j: int| 0 <= i < j < after.len() implies after[i].symbol_id
                != after[j].symbol_id by {
                assert(after[i].symbol_id == symbols[i].symbol_id);
                assert(after[j].symbol_id == symbols[j].symbol_id);
            }
        },
        None => {
            assert forall|i: int, j: int| 0 <= i < j < after.len() implies after[i].symbol_id
                != after[j].symbol_id by {
                if j < symbols.len() {
                    assert(after[i] == symbols[i] && after[j] == symbols[j]);
                } else {
                    assert(after[i] == symbols[i]);
                }
            }
        },
    }
}

/// A scope: a table of symbols with a link to the scope around it.
pub struct SymbolTable {
    name: String,
    table_id: TableId,
    parent: Option<TableId>,
    symbols: Vec<Symbol>,
    depth: Ghost<nat>,
}

/// The mathematical value of a [`SymbolTable`].
pub struct ScopeView {
    pub name: Seq<char>,
    pub table_id: TableId,
    /// The scope around this one; `None` for a root.
    pub parent: Option<TableId>,
    /// The symbols declared in this scope, oldest first.
    pub symbols: Seq<SymbolView>,
    /// How many scopes lie around this one.
    pub depth: nat,
}

impl View for SymbolTable {
    type V = ScopeView;

    closed spec fn view(&self) -> ScopeView {
        ScopeView {
            name: self.name@,
            table_id: self.table_id,
            parent: self.parent,
            symbols: symbol_views(self.symbols@),
            depth: self.depth@,
        }
    }
}

impl SymbolTable {
    #[verifier::type_invariant]
    spec fn one_symbol_per_identity(&self) -> bool {
        distinct_ids(symbol_views(self.symbols@))
    }

    /// An empty root scope named `name`, with the identity `table_id`.
    pub fn with_id(name: String, table_id: TableId) -> (table: SymbolTable)
        ensures
            table@ == (ScopeView {
                name: name@,
                table_id,
                parent: None,
                symbols: Seq::empty(),
                depth: 0,
            }),
    {
        let symbols: Vec<Symbol> = Vec::new();
        proof {
            assert(symbol_views(symbols@) =~= Seq::<SymbolView>::empty());
        }
        SymbolTable { name, table_id, parent: None, symbols, depth: Ghost(0) }
    }

    /// An empty root scope named `name`, with a fresh identity.
    pub fn new(name: String) -> (table: SymbolTable)
        ensures
            table@ == (ScopeView {
                name: name@,
                table_id: table@.table_id,
                parent: None,
                symbols: Seq::empty(),
                depth: 0,
            }),
            is_random_uuid(table@.table_id),
    {
        SymbolTable::with_id(name, random_identity())
    }

    /// The identity of this scope.
    pub fn table_id(&self) -> (id: TableId)
        ensures
            id == self@.table_id,
    {
        self.table_id
    }

    /// The identity of the scope around this one, if there is one.
    pub fn parent(&self) -> (id: Option<TableId>)
        ensures
            id == self@.parent,
    {
        self.parent
    }

    /// Puts `symbol` into this scope: in the place of the symbol that has its identity,
    /// or after all others if none has.
    pub fn insert(&mut self, symbol: Symbol)
        ensures
            final(self)@ == (ScopeView { symbols: put(old(self)@.symbols, symbol@), ..old(self)@ }),
    {
        proof {
            use_type_invariant(&*self);
        }
        let mut symbols: Vec<Symbol> = Vec::new();
        proof {
            assert(symbol_views(symbols@) =~= Seq::<SymbolView>::empty());
        }
        std::mem::swap(&mut self.symbols, &mut symbols);
        let ghost before = symbol_views(symbols@);
        proof {
            lemma_put_keeps_distinct(before, symbol@);
        }
        let mut i: usize = 0;
        let mut placed = false;
        while i < symbols.len()
            invariant_except_break
                !placed,
                index_of_id(before, i as int, symbol.symbol_id) == index_of_id(
                    before,
                    0,
                    symbol.symbol_id,
                ),
            invariant
                0 <= i <= symbols@.len(),
                before == symbol_views(symbols@),
            ensures
                placed ==> i < symbols@.len() && index_of_id(before, 0, symbol.symbol_id) == Some(
                    i as int,
                ),
                !placed ==> index_of_id(before, 0, symbol.symbol_id) is None,
                before == symbol_views(symbols@),
            decreases symbols@.len() - i,
        {
            if symbols[i].symbol_id == symbol.symbol_id {
                placed = true;
                break ;
            }
            i += 1;
        }
        if placed {
            symbols.set(i, symbol);
            proof {
                assert(symbol_views(symbols@) =~= before.update(i as int, symbol@));
            }
        } else {
            symbols.push(symbol);
            proof {
                assert(symbol_views(symbols@) =~= before.push(symbol@));
            }
        }
        std::mem::swap(&mut self.symbols, &mut symbols);
    }

    /// The first symbol of this scope that is named `name`.
    pub fn lookup(&self, name: String) -> (symbol: Option<&Symbol>)
        ensures
            match find_name(self@.symbols, name@) {
                Some(view) => symbol matches Some(found) && found@ == view,
                None => symbol is None,
            },
    {
        let ghost views = symbol_views(self.symbols@);
        let mut i: usize = 0;
        while i < self.symbols.len()
            invariant
                0 <= i <= self.symbols@.len(),
                views == symbol_views(self.symbols@),
                index_of_name(views, i as int, name@) == index_of_name(views, 0, name@),
            decreases self.symbols@.len() - i,
        {
            if self.symbols[i].name == name {
                return Some(&self.symbols[i]);
            }
            i += 1;
        }
        None
    }

    /// The symbol of this scope that has the identity `id`.
    pub fn lookup_id(&self, id: SymbolId) -> (symbol: Option<&Symbol>)
        ensures
            match find_id(self@.symbols, id) {
                Some(view) => symbol matches Some(found) && found@ == view,
                None => symbol is None,
            },
    {
        let ghost views = symbol_views(self.symbols@);
        let mut i: usize = 0;
        while i < self.symbols.len()
            invariant
                0 <= i <= self.symbols@.len(),
                views == symbol_views(self.symbols@),
                index_of_id(views, i as int, id) == index_of_id(views, 0, id),
            decreases self.symbols@.len() - i,
        {
            if self.symbols[i].symbol_id == id {
                return Some(&self.symbols[i]);
            }
            i += 1;
        }
        None
    }
}

impl Symbol {
    /// A symbol named `name` of the kind `kind`, with a fresh identity.
    pub fn new(name: String, kind: SymbolVariant) -> (symbol: Symbol)
        ensures
            symbol@ == (SymbolView {
                name: name@,
                symbol_id: symbol@.symbol_id,
                variant: kind@,
            }),
            is_random_uuid(symbol@.symbol_id),
    {
        Symbol { name, symbol_id: random_identity(), variant: kind }
    }
}

impl FunctionTypeSymbol {
    /// A function type with the given return type and argument types.
    pub fn new(return_id: Option<SymbolId>, argument_ids: Vec<SymbolId>) -> (function: Self)
        ensures
            function.return_id == return_id,
            function.argument_ids == argument_ids,
    {
        FunctionTypeSymbol { return_id, argument_ids }
    }
}

impl NativeFunctionSymbol {
    /// A native function of the type `type_id`.
    pub fn new(type_id: SymbolId) -> (function: Self)
        ensures
            function.type_id == type_id,
    {
        NativeFunctionSymbol { type_id }
    }
}

/// Whether the scope `inner` has a parent among `scopes` that lies less deep than itself,
/// as every scope of a forest has unless it is a root.
pub open spec fn has_outer(scopes: Map<TableId, ScopeView>, inner: TableId) -> bool {
    &&& scopes.contains_key(inner)
    &&& scopes[inner].parent matches Some(outer)
    &&& scopes.contains_key(outer)
    &&& scopes[outer].depth < scopes[inner].depth
}

/// The symbol that `name` denotes in the scope `scope_id`: the first of that name in the
/// scope itself, else what the name denotes in the scope around it.
pub open spec fn resolve_name(
    scopes: Map<TableId, ScopeView>,
    scope_id: TableId,
    name: Seq<char>,
) -> Option<SymbolView>
    decreases
        (if scopes.contains_key(scope_id) {
            scopes[scope_id].depth + 1
        } else {
            0
        }),
{
    if !scopes.contains_key(scope_id) {
        None
    } else {
        match find_name(scopes[scope_id].symbols, name) {
            Some(symbol) => Some(symbol),
            None => if has_outer(scopes, scope_id) {
                resolve_name(scopes, scopes[scope_id].parent->0, name)
            } else {
                None
            },
        }
    }
}

/// The symbol with the identity `id` that is visible in the scope `scope_id`: the one in
/// the scope itself, else the one visible in the scope around it.
pub open spec fn resolve_id(
    scopes: Map<TableId, ScopeView>,
    scope_id: TableId,
    id: SymbolId,
) -> Option<SymbolView>
    decreases
        (if scopes.contains_key(scope_id) {
            scopes[scope_id].depth + 1
        } else {
            0
        }),
{
    if !scopes.contains_key(scope_id) {
        None
    } else {
        match find_id(scopes[scope_id].symbols, id) {
            Some(symbol) => Some(symbol),
            None => if has_outer(scopes, scope_id) {
                resolve_id(scopes, scopes[scope_id].parent->0, id)
            } else {
                None
            },
        }
    }
}

/// The name under which errors report the type `id`, seen from the scope `scope_id`.
pub open spec fn name_of_type(
    scopes: Map<TableId, ScopeView>,
    scope_id: TableId,
    id: SymbolId,
) -> Seq<char> {
    match resolve_id(scopes, scope_id, id) {
        Some(symbol) => symbol.name,
        None => unknown_name(),
    }
}

/// The name that stands for a type that cannot be found.
pub open spec fn unknown_name() -> Seq<char> {
    "<unknown>"@
}

/// The name of a scope that a block opens.
pub open spec fn block_name() -> Seq<char> {
    "block"@
}

/// The annotated syntax tree: names are resolved to symbol identities, and each block
/// carries the identity of its scope.
#[derive(Debug)]
pub enum SemanticAst {
    /// The statements of a block, and the identity of the block's scope.
    Block(Vec<SemanticAst>, TableId),
    Number(Token),
    Truth(Token),
    Text(Token),
    /// A reference to the symbol with this identity.
    Variable(SymbolId),
    /// A declaration of the symbol with this identity (given twice), and its initializer.
    Declaration(SymbolId, SymbolId, SemanticNode),
    /// An assignment to the symbol with this identity.
    Assignment(SymbolId, SemanticNode),
    FunctionCall(SemanticNode, Vec<SemanticNode>),
    If(SemanticNode, SemanticNode),
    DebugPrint(SemanticNode),
}

/// A node of the annotated tree, boxed.
pub type SemanticNode = Box<SemanticAst>;

/// The mathematical value of a [`SemanticAst`].
pub enum SemanticAstView {
    Block(Seq<SemanticAstView>, TableId),
    Number(TokenView),
    Truth(TokenView),
    Text(TokenView),
    Variable(SymbolId),
    Declaration(SymbolId, SymbolId, Box<SemanticAstView>),
    Assignment(SymbolId, Box<SemanticAstView>),
    FunctionCall(Box<SemanticAstView>, Seq<SemanticAstView>),
    If(Box<SemanticAstView>, Box<SemanticAstView>),
    DebugPrint(Box<SemanticAstView>),
}

impl SemanticAst {
    /// The mathematical value of the tree.
    pub open spec fn model(&self) -> SemanticAstView
        decreases self,
    {
        match self {
            SemanticAst::Block(nodes, scope_id) => SemanticAstView::Block(
                Seq::new(nodes@.len(), |i: int| if 0 <= i < nodes@.len() {
                    nodes@[i].model()
                } else {
                    arbitrary()
                }),
                *scope_id,
            ),
            SemanticAst::Number(token) => SemanticAstView::Number(token@),
            SemanticAst::Truth(token) => SemanticAstView::Truth(token@),
            SemanticAst::Text(token) => SemanticAstView::Text(token@),
            SemanticAst::Variable(id) => SemanticAstView::Variable(*id),
            SemanticAst::Declaration(id, again, value) => SemanticAstView::Declaration(
                *id,
                *again,
                Box::new(value.model()),
            ),
            SemanticAst::Assignment(id, value) => SemanticAstView::Assignment(
                *id,
                Box::new(value.model()),
            ),
            SemanticAst::FunctionCall(callee, arguments) => SemanticAstView::FunctionCall(
                Box::new(callee.model()),
                Seq::new(arguments@.len(), |i: int| if 0 <= i < arguments@.len() {
                    arguments@[i].model()
                } else {
                    arbitrary()
                }),
            ),
            SemanticAst::If(condition, body) => SemanticAstView::If(
                Box::new(condition.model()),
                Box::new(body.model()),
            ),
            SemanticAst::DebugPrint(value) => SemanticAstView::DebugPrint(
                Box::new(value.model()),
            ),
        }
    }
}

impl View for SemanticAst {
    type V = SemanticAstView;

    open spec fn view(&self) -> SemanticAstView {
        self.model()
    }
}

/// The mathematical values of a list of annotated trees.
pub open spec fn tree_views(nodes: Seq<SemanticAst>) -> Seq<SemanticAstView> {
    Seq::new(nodes.len(), |i: int| if 0 <= i < nodes.len() {
        nodes[i].model()
    } else {
        arbitrary()
    })
}

/// The mathematical values of a list of boxed annotated trees.
pub open spec fn boxed_tree_views(nodes: Seq<SemanticNode>) -> Seq<SemanticAstView> {
    Seq::new(nodes.len(), |i: int| if 0 <= i < nodes.len() {
        nodes[i].model()
    } else {
        arbitrary()
    })
}

/// What analyzing a node gives: the annotated node and the identity of its type, which
/// a statement does not have.
#[derive(Debug)]
pub struct SemanticResult {
    pub node: SemanticNode,
    pub type_id: Option<SymbolId>,
}

/// The mathematical value of a [`SemanticResult`].
pub struct Analyzed {
    pub node: SemanticAstView,
    pub type_id: Option<SymbolId>,
}

impl View for SemanticResult {
    type V = Analyzed;

    open spec fn view(&self) -> Analyzed {
        Analyzed { node: self.node@, type_id: self.type_id }
    }
}

/// Why a syntax tree is rejected.
#[derive(Debug)]
pub enum SemanticError {
    /// No symbol of this name is visible.
    UnknownVariable(String),
    /// A symbol of this name exists, but it is a type, not something with a value.
    NotAValue(String),
    /// The current scope already has a symbol of this name.
    DuplicateDeclaration(String),
    /// A value of the type named second stands where one of the type named first is
    /// needed.
    TypeMismatch(String, String),
    /// The condition of a conditional is not of the truth type.
    ConditionNotTruth,
    /// A call has more or fewer arguments than the function takes.
    WrongArgumentCount,
    /// The target of an assignment is not a variable.
    NotAVariable,
    /// What is called is not of a function type.
    NotAFunction,
    /// A statement stands where an expression with a value is needed.
    MissingValue,
    /// The current scope is not in the forest.
    NoCurrentScope,
    /// The current scope is a root, so there is no scope to go back to.
    RootScopePopped,
    /// The identity supplied for a new scope already denotes a scope.
    IdentityInUse,
    /// The supply of identities is used up.
    OutOfIdentities,
}

/// The mathematical value of a [`SemanticError`].
pub enum SemanticErrorView {
    UnknownVariable(Seq<char>),
    NotAValue(Seq<char>),
    DuplicateDeclaration(Seq<char>),
    TypeMismatch(Seq<char>, Seq<char>),
    ConditionNotTruth,
    WrongArgumentCount,
    NotAVariable,
    NotAFunction,
    MissingValue,
    NoCurrentScope,
    RootScopePopped,
    IdentityInUse,
    OutOfIdentities,
}

impl View for SemanticError {
    type V = SemanticErrorView;

    open spec fn view(&self) -> SemanticErrorView {
        match self {
            SemanticError::UnknownVariable(name) => SemanticErrorView::UnknownVariable(name@),
            SemanticError::NotAValue(name) => SemanticErrorView::NotAValue(name@),
            SemanticError::DuplicateDeclaration(name) => SemanticErrorView::DuplicateDeclaration(
                name@,
            ),
            SemanticError::TypeMismatch(expected, got) => SemanticErrorView::TypeMismatch(
                expected@,
                got@,
            ),
            SemanticError::ConditionNotTruth => SemanticErrorView::ConditionNotTruth,
            SemanticError::WrongArgumentCount => SemanticErrorView::WrongArgumentCount,
            SemanticError::NotAVariable => SemanticErrorView::NotAVariable,
            SemanticError::NotAFunction => SemanticErrorView::NotAFunction,
            SemanticError::MissingValue => SemanticErrorView::MissingValue,
            SemanticError::NoCurrentScope => SemanticErrorView::NoCurrentScope,
            SemanticError::RootScopePopped => SemanticErrorView::RootScopePopped,
            SemanticError::IdentityInUse => SemanticErrorView::IdentityInUse,
            SemanticError::OutOfIdentities => SemanticErrorView::OutOfIdentities,
        }
    }
}

/// The mathematical value of a [`SemanticAnalyzer`]: the forest of scopes and the
/// identities of the scopes that play a part.
pub struct AnalyzerView {
    pub scopes: Map<TableId, ScopeView>,
    pub current_scope_id: TableId,
    pub repl_scope_id: TableId,
    pub global_scope_id: TableId,
}

impl AnalyzerView {
    /// The state in which `scope_id` is the current scope.
    pub open spec fn enter(self, scope_id: TableId) -> AnalyzerView {
        AnalyzerView { current_scope_id: scope_id, ..self }
    }

    /// How deep a scope opened in the current scope lies.
    pub open spec fn inner_depth(self) -> nat {
        self.scopes[self.current_scope_id].depth + 1
    }

    /// The state after a block opens the scope `scope_id` in the current scope, which is
    /// in the forest, and enters it.
    pub open spec fn open_block(self, scope_id: TableId) -> AnalyzerView {
        AnalyzerView {
            scopes: self.scopes.insert(
                scope_id,
                ScopeView {
                    name: block_name(),
                    table_id: scope_id,
                    parent: Some(self.current_scope_id),
                    symbols: Seq::empty(),
                    depth: self.inner_depth(),
                },
            ),
            current_scope_id: scope_id,
            ..self
        }
    }

    /// The state after going back to the scope around the current one, or the error if
    /// there is none.
    pub open spec fn leave(self) -> Result<AnalyzerView, SemanticErrorView> {
        if !self.scopes.contains_key(self.current_scope_id) {
            Err(SemanticErrorView::NoCurrentScope)
        } else {
            match self.scopes[self.current_scope_id].parent {
                Some(outer) => Ok(self.enter(outer)),
                None => Err(SemanticErrorView::RootScopePopped),
            }
        }
    }

    /// The state after `symbol` is put into the scope `scope_id`, which is in the forest.
    pub open spec fn put_in(self, scope_id: TableId, symbol: SymbolView) -> AnalyzerView {
        AnalyzerView {
            scopes: self.scopes.insert(
                scope_id,
                ScopeView {
                    symbols: put(self.scopes[scope_id].symbols, symbol),
                    ..self.scopes[scope_id]
                },
            ),
            ..self
        }
    }

    /// The symbol that `name` denotes in the current scope.
    pub open spec fn named(self, name: Seq<char>) -> Option<SymbolView> {
        resolve_name(self.scopes, self.current_scope_id, name)
    }

    /// The symbol with the identity `id` that is visible in the current scope.
    pub open spec fn identified(self, id: SymbolId) -> Option<SymbolView> {
        resolve_id(self.scopes, self.current_scope_id, id)
    }

    /// Whether the parent of every scope is in the forest and lies less deep than the
    /// scope: every chain of parents ends at a root.
    pub open spec fn well_founded(self) -> bool {
        forall|id: TableId| #[trigger]
            self.scopes.contains_key(id) ==> (self.scopes[id].parent is Some ==> has_outer(
                self.scopes,
                id,
            ))
    }
}

/// The type of the value that a symbol of the kind `variant` has, if it has a value.
pub open spec fn value_type(variant: VariantView) -> Option<SymbolId> {
    match variant {
        VariantView::Variable(type_id) => Some(type_id),
        VariantView::NativeFunction(type_id) => Some(type_id),
        _ => None,
    }
}

/// What analyzing a node gives: the analyzer's state afterwards, the identities that
/// are left, and the annotated node with its type or the error.
pub struct Analysis {
    pub state: AnalyzerView,
    pub ids: Seq<u128>,
    pub result: Result<Analyzed, SemanticErrorView>,
}

/// What analyzing a list of nodes gives.
pub struct ListAnalysis {
    pub state: AnalyzerView,
    pub ids: Seq<u128>,
    pub result: Result<Seq<SemanticAstView>, SemanticErrorView>,
}

/// An analysis that gives `node` with the type `type_id`.
pub open spec fn accepted(
    state: AnalyzerView,
    ids: Seq<u128>,
    node: SemanticAstView,
    type_id: Option<SymbolId>,
) -> Analysis {
    Analysis { state, ids, result: Ok(Analyzed { node, type_id }) }
}

/// An analysis that ends with `error`.
pub open spec fn rejected(
    state: AnalyzerView,
    ids: Seq<u128>,
    error: SemanticErrorView,
) -> Analysis {
    Analysis { state, ids, result: Err(error) }
}

/// The analysis of a variable reference by the name `name`.
pub open spec fn analysis_of_variable(
    state: AnalyzerView,
    name: Seq<char>,
    ids: Seq<u128>,
) -> Analysis {
    if !state.scopes.contains_key(state.current_scope_id) {
        rejected(state, ids, SemanticErrorView::NoCurrentScope)
    } else {
        match state.named(name) {
            None => rejected(state, ids, SemanticErrorView::UnknownVariable(name)),
            Some(symbol) => match value_type(symbol.variant) {
                Some(type_id) => accepted(
                    state,
                    ids,
                    SemanticAstView::Variable(symbol.symbol_id),
                    Some(type_id),
                ),
                None => rejected(state, ids, SemanticErrorView::NotAValue(name)),
            },
        }
    }
}

/// The declaration of a variable named `name`, whose initializer was analyzed to `value`
/// of the type `type_id`.
pub open spec fn analysis_of_declared(
    state: AnalyzerView,
    name: Seq<char>,
    value: SemanticAstView,
    type_id: SymbolId,
    ids: Seq<u128>,
) -> Analysis {
    if !state.scopes.contains_key(state.current_scope_id) {
        rejected(state, ids, SemanticErrorView::NoCurrentScope)
    } else if find_name(state.scopes[state.current_scope_id].symbols, name) is Some {
        rejected(state, ids, SemanticErrorView::DuplicateDeclaration(name))
    } else if ids.len() == 0 {
        rejected(state, ids, SemanticErrorView::OutOfIdentities)
    } else {
        accepted(
            state.put_in(
                state.current_scope_id,
                SymbolView { name, symbol_id: ids[0], variant: VariantView::Variable(type_id) },
            ),
            ids.drop_first(),
            SemanticAstView::Declaration(ids[0], ids[0], Box::new(value)),
            None,
        )
    }
}

/// The assignment to `target` of a value that was analyzed to `value` of the type
/// `type_id`.
pub open spec fn analysis_of_assigned(
    state: AnalyzerView,
    target: AstView,
    value: SemanticAstView,
    type_id: Option<SymbolId>,
    ids: Seq<u128>,
) -> Analysis {
    if !state.scopes.contains_key(state.current_scope_id) {
        rejected(state, ids, SemanticErrorView::NoCurrentScope)
    } else {
        match target {
            AstView::Variable(token) => match state.named(token.value) {
                None => rejected(state, ids, SemanticErrorView::UnknownVariable(token.value)),
                Some(symbol) => match symbol.variant {
                    VariantView::Variable(declared) => match type_id {
                        None => rejected(state, ids, SemanticErrorView::MissingValue),
                        Some(found) => if found == declared {
                            accepted(
                                state,
                                ids,
                                SemanticAstView::Assignment(symbol.symbol_id, Box::new(value)),
                                None,
                            )
                        } else {
                            rejected(
                                state,
                                ids,
                                SemanticErrorView::TypeMismatch(
                                    name_of_type(state.scopes, state.current_scope_id, declared),
                                    name_of_type(state.scopes, state.current_scope_id, found),
                                ),
                            )
                        },
                    },
                    _ => rejected(state, ids, SemanticErrorView::NotAVariable),
                },
            },
            _ => rejected(state, ids, SemanticErrorView::NotAVariable),
        }
    }
}

/// The function type that the callee type `type_id` denotes: its argument types and its
/// return type, or the error if it denotes no function type.
pub open spec fn callee_type(state: AnalyzerView, type_id: Option<SymbolId>) -> Result<
    (Seq<SymbolId>, Option<SymbolId>),
    SemanticErrorView,
> {
    match type_id {
        None => Err(SemanticErrorView::MissingValue),
        Some(id) => if !state.scopes.contains_key(state.current_scope_id) {
            Err(SemanticErrorView::NoCurrentScope)
        } else {
            match state.identified(id) {
                Some(symbol) => match symbol.variant {
                    VariantView::FunctionType { return_id, argument_ids } => Ok(
                        (argument_ids, return_id),
                    ),
                    _ => Err(SemanticErrorView::NotAFunction),
                },
                None => Err(SemanticErrorView::NotAFunction),
            }
        },
    }
}

/// The analysis of `ast` in `state`, with the identities `ids` for the scopes and symbols
/// that it creates: a block takes one for its scope before its statements are analyzed,
/// a declaration one for its symbol after its initializer is.
pub open spec fn analysis(state: AnalyzerView, ast: AstView, ids: Seq<u128>) -> Analysis
    decreases ast, 0int,
{
    match ast {
        AstView::Block(nodes) => {
            if !state.scopes.contains_key(state.current_scope_id) {
                rejected(state, ids, SemanticErrorView::NoCurrentScope)
            } else if ids.len() == 0 {
                rejected(state, ids, SemanticErrorView::OutOfIdentities)
            } else if state.scopes.contains_key(ids[0]) {
                rejected(state, ids.drop_first(), SemanticErrorView::IdentityInUse)
            } else {
                let body = analysis_of_statements(
                    state.open_block(ids[0]),
                    nodes,
                    0,
                    ids.drop_first(),
                    Seq::empty(),
                );
                match body.result {
                    Err(error) => rejected(body.state, body.ids, error),
                    Ok(statements) => match body.state.leave() {
                        Err(error) => rejected(body.state, body.ids, error),
                        Ok(outside) => accepted(
                            outside,
                            body.ids,
                            SemanticAstView::Block(statements, ids[0]),
                            None,
                        ),
                    },
                }
            }
        },
        AstView::Number(token) => accepted(
            state,
            ids,
            SemanticAstView::Number(token),
            Some(INT_TYPE_ID),
        ),
        AstView::Truth(token) => accepted(
            state,
            ids,
            SemanticAstView::Truth(token),
            Some(TRUTH_TYPE_ID),
        ),
        AstView::Text(token) => accepted(
            state,
            ids,
            SemanticAstView::Text(token),
            Some(TEXT_TYPE_ID),
        ),
        AstView::Variable(token) => analysis_of_variable(state, token.value, ids),
        AstView::Declaration(name, initializer) => {
            let value = analysis(state, *initializer, ids);
            match value.result {
                Err(error) => value,
                Ok(analyzed) => match analyzed.type_id {
                    None => rejected(value.state, value.ids, SemanticErrorView::MissingValue),
                    Some(type_id) => analysis_of_declared(
                        value.state,
                        name.value,
                        analyzed.node,
                        type_id,
                        value.ids,
                    ),
                },
            }
        },
        AstView::Assignment(target, source) => {
            let value = analysis(state, *source, ids);
            match value.result {
                Err(error) => value,
                Ok(analyzed) => analysis_of_assigned(
                    value.state,
                    *target,
                    analyzed.node,
                    analyzed.type_id,
                    value.ids,
                ),
            }
        },
        AstView::FunctionCall(callee, arguments) => {
            let function = analysis(state, *callee, ids);
            match function.result {
                Err(error) => function,
                Ok(analyzed) => match callee_type(function.state, analyzed.type_id) {
                    Err(error) => rejected(function.state, function.ids, error),
                    Ok((argument_ids, return_id)) => if arguments.len() != argument_ids.len() {
                        rejected(
                            function.state,
                            function.ids,
                            SemanticErrorView::WrongArgumentCount,
                        )
                    } else {
                        let list = analysis_of_arguments(
                            function.state,
                            arguments,
                            0,
                            argument_ids,
                            function.ids,
                            Seq::empty(),
                        );
                        match list.result {
                            Err(error) => rejected(list.state, list.ids, error),
                            Ok(nodes) => accepted(
                                list.state,
                                list.ids,
                                SemanticAstView::FunctionCall(Box::new(analyzed.node), nodes),
                                return_id,
                            ),
                        }
                    },
                },
            }
        },
        AstView::If(condition, body) => {
            let test = analysis(state, *condition, ids);
            match test.result {
                Err(error) => test,
                Ok(tested) => {
                    let inner = analysis(test.state, *body, test.ids);
                    match inner.result {
                        Err(error) => inner,
                        Ok(statement) => match tested.type_id {
                            None => rejected(
                                inner.state,
                                inner.ids,
                                SemanticErrorView::MissingValue,
                            ),
                            Some(type_id) => if type_id == TRUTH_TYPE_ID {
                                accepted(
                                    inner.state,
                                    inner.ids,
                                    SemanticAstView::If(
                                        Box::new(tested.node),
                                        Box::new(statement.node),
                                    ),
                                    None,
                                )
                            } else {
                                rejected(
                                    inner.state,
                                    inner.ids,
                                    SemanticErrorView::ConditionNotTruth,
                                )
                            },
                        },
                    }
                },
            }
        },
        AstView::DebugPrint(operand) => {
            let value = analysis(state, *operand, ids);
            match value.result {
                Err(error) => value,
                Ok(analyzed) => match analyzed.type_id {
                    None => rejected(value.state, value.ids, SemanticErrorView::MissingValue),
                    Some(_) => accepted(
                        value.state,
                        value.ids,
                        SemanticAstView::DebugPrint(Box::new(analyzed.node)),
                        None,
                    ),
                },
            }
        },
    }
}

/// The analysis, one after the other, of the nodes from `start` on, after those that
/// gave `found`.
pub open spec fn analysis_of_statements(
    state: AnalyzerView,
    nodes: Seq<AstView>,
    start: int,
    ids: Seq<u128>,
    found: Seq<SemanticAstView>,
) -> ListAnalysis
    decreases nodes, nodes.len() - start,
{
    if !(0 <= start < nodes.len()) {
        ListAnalysis { state, ids, result: Ok(found) }
    } else {
        let next = analysis(state, nodes[start], ids);
        match next.result {
            Err(error) => ListAnalysis { state: next.state, ids: next.ids, result: Err(error) },
            Ok(analyzed) => analysis_of_statements(
                next.state,
                nodes,
                start + 1,
                next.ids,
                found.push(analyzed.node),
            ),
        }
    }
}

/// The analysis, one after the other, of the arguments from `start` on, after those that
/// gave `found`; each has to be of the type that `expected` holds at its position.
pub open spec fn analysis_of_arguments(
    state: AnalyzerView,
    nodes: Seq<AstView>,
    start: int,
    expected: Seq<SymbolId>,
    ids: Seq<u128>,
    found: Seq<SemanticAstView>,
) -> ListAnalysis
    decreases nodes, nodes.len() - start,
{
    if !(0 <= start < nodes.len()) {
        ListAnalysis { state, ids, result: Ok(found) }
    } else {
        let next = analysis(state, nodes[start], ids);
        match next.result {
            Err(error) => ListAnalysis { state: next.state, ids: next.ids, result: Err(error) },
            Ok(analyzed) => match analyzed.type_id {
                None => ListAnalysis {
                    state: next.state,
                    ids: next.ids,
                    result: Err(SemanticErrorView::MissingValue),
                },
                Some(type_id) => if type_id == expected[start] {
                    analysis_of_arguments(
                        next.state,
                        nodes,
                        start + 1,
                        expected,
                        next.ids,
                        found.push(analyzed.node),
                    )
                } else {
                    ListAnalysis {
                        state: next.state,
                        ids: next.ids,
                        result: Err(
                            SemanticErrorView::TypeMismatch(
                                name_of_type(
                                    next.state.scopes,
                                    next.state.current_scope_id,
                                    expected[start],
                                ),
                                name_of_type(
                                    next.state.scopes,
                                    next.state.current_scope_id,
                                    type_id,
                                ),
                            ),
                        ),
                    }
                },
            },
        }
    }
}

/// The mathematical value of what analyzing a node returns.
pub open spec fn analysis_outcome(result: Result<SemanticResult, SemanticError>) -> Result<
    Analyzed,
    SemanticErrorView,
> {
    match result {
        Ok(analyzed) => Ok(analyzed@),
        Err(error) => Err(error@),
    }
}

/// The primitive type named `name` with the identity `symbol_id`.
pub open spec fn primitive(name: Seq<char>, symbol_id: SymbolId) -> SymbolView {
    SymbolView { name, symbol_id, variant: VariantView::Primitive }
}

/// The state of a new analyzer: the global scope with the primitive types, and the
/// top-level scope as its child; the global scope is the current one.
pub open spec fn initial_state() -> AnalyzerView {
    AnalyzerView {
        scopes: Map::<TableId, ScopeView>::empty().insert(
            GLOBAL_SCOPE_ID,
            ScopeView {
                name: "global_table"@,
                table_id: GLOBAL_SCOPE_ID,
                parent: None,
                symbols: seq![
                    primitive("int"@, INT_TYPE_ID),
                    primitive("dec"@, DEC_TYPE_ID),
                    primitive("string"@, TEXT_TYPE_ID),
                    primitive("truth"@, TRUTH_TYPE_ID),
                ],
                depth: 0,
            },
        ).insert(
            REPL_SCOPE_ID,
            ScopeView {
                name: "repl_scope"@,
                table_id: REPL_SCOPE_ID,
                parent: Some(GLOBAL_SCOPE_ID),
                symbols: Seq::empty(),
                depth: 1,
            },
        ),
        current_scope_id: GLOBAL_SCOPE_ID,
        repl_scope_id: REPL_SCOPE_ID,
        global_scope_id: GLOBAL_SCOPE_ID,
    }
}

/// The semantic analyzer: a forest of scopes, and the scope that analysis is in.
pub struct SemanticAnalyzer {
    scopes: HashMap<TableId, SymbolTable>,
    current_scope_id: TableId,
    repl_scope_id: TableId,
    global_scope_id: TableId,
}

impl View for SemanticAnalyzer {
    type V = AnalyzerView;

    closed spec fn view(&self) -> AnalyzerView {
        AnalyzerView {
            scopes: scope_views(self.scopes@),
            current_scope_id: self.current_scope_id,
            repl_scope_id: self.repl_scope_id,
            global_scope_id: self.global_scope_id,
        }
    }
}

/// The mathematical values of the scopes of a forest.
pub closed spec fn scope_views(scopes: Map<TableId, SymbolTable>) -> Map<TableId, ScopeView> {
    Map::new(|id: TableId| scopes.contains_key(id), |id: TableId| scopes[id]@)
}

/// The primitive type named `name` with the identity `symbol_id`.
fn primitive_symbol(name: &str, symbol_id: SymbolId) -> (symbol: Symbol)
    ensures
        symbol@ == primitive(name@, symbol_id),
{
    Symbol { name: name.to_owned(), symbol_id, variant: SymbolVariant::Primitive }
}

impl SemanticAnalyzer {
    #[verifier::type_invariant]
    spec fn forest(&self) -> bool {
        self@.well_founded()
    }

    /// A new analyzer, in its initial state.
    pub fn new() -> (analyzer: SemanticAnalyzer)
        ensures
            analyzer@ == initial_state(),
    {
        broadcast use vstd::std_specs::hash::group_hash_axioms;

        let mut global_table = SymbolTable::with_id("global_table".to_owned(), GLOBAL_SCOPE_ID);
        global_table.insert(primitive_symbol("int", INT_TYPE_ID));
        global_table.insert(primitive_symbol("dec", DEC_TYPE_ID));
        global_table.insert(primitive_symbol("string", TEXT_TYPE_ID));
        global_table.insert(primitive_symbol("truth", TRUTH_TYPE_ID));
        let mut repl_scope = SymbolTable::with_id("repl_scope".to_owned(), REPL_SCOPE_ID);
        repl_scope.parent = Some(GLOBAL_SCOPE_ID);
        repl_scope.depth = Ghost(1);
        let mut scopes: HashMap<TableId, SymbolTable> = HashMap::new();
        scopes.insert(GLOBAL_SCOPE_ID, global_table);
        scopes.insert(REPL_SCOPE_ID, repl_scope);
        proof {
            let symbols = seq![
                primitive("int"@, INT_TYPE_ID),
                primitive("dec"@, DEC_TYPE_ID),
                primitive("string"@, TEXT_TYPE_ID),
                primitive("truth"@, TRUTH_TYPE_ID),
            ];
            assert(global_table@.symbols =~= symbols) by {
                reveal_with_fuel(index_of_id, 5);
            }
            assert(scope_views(scopes@) =~= initial_state().scopes);
        }
        SemanticAnalyzer {
            scopes,
            current_scope_id: GLOBAL_SCOPE_ID,
            repl_scope_id: REPL_SCOPE_ID,
            global_scope_id: GLOBAL_SCOPE_ID,
        }
    }

    /// The identity of the current scope.
    pub fn current_scope_id(&self) -> (id: TableId)
        ensures
            id == self@.current_scope_id,
    {
        self.current_scope_id
    }

    /// The identity of the scope that holds what is declared at the top level.
    pub fn repl_scope_id(&self) -> (id: TableId)
        ensures
            id == self@.repl_scope_id,
    {
        self.repl_scope_id
    }

    /// The identity of the global scope.
    pub fn global_scope_id(&self) -> (id: TableId)
        ensures
            id == self@.global_scope_id,
    {
        self.global_scope_id
    }

    /// The scope with the identity `scope_id`, if it is in the forest.
    pub fn scope(&self, scope_id: TableId) -> (table: Option<&SymbolTable>)
        ensures
            match table {
                Some(found) => self@.scopes.contains_key(scope_id) && found@
                    == self@.scopes[scope_id],
                None => !self@.scopes.contains_key(scope_id),
            },
    {
        broadcast use vstd::std_specs::hash::group_hash_axioms;

        self.scopes.get(&scope_id)
    }

    /// The global scope.
    pub fn global_scope(&self) -> (table: Result<&SymbolTable, SemanticError>)
        ensures
            match table {
                Ok(found) => self@.scopes.contains_key(self@.global_scope_id) && found@
                    == self@.scopes[self@.global_scope_id],
                Err(error) => !self@.scopes.contains_key(self@.global_scope_id) && error@
                    == SemanticErrorView::NoCurrentScope,
            },
    {
        match self.scope(self.global_scope_id) {
            Some(table) => Ok(table),
            None => Err(SemanticError::NoCurrentScope),
        }
    }

    /// The current scope, or the error if it is not in the forest.
    pub fn current_scope(&self) -> (table: Result<&SymbolTable, SemanticError>)
        ensures
            match table {
                Ok(found) => self@.scopes.contains_key(self@.current_scope_id) && found@
                    == self@.scopes[self@.current_scope_id],
                Err(error) => !self@.scopes.contains_key(self@.current_scope_id) && error@
                    == SemanticErrorView::NoCurrentScope,
            },
    {
        match self.scope(self.current_scope_id) {
            Some(table) => Ok(table),
            None => Err(SemanticError::NoCurrentScope),
        }
    }

    /// Makes `scope_id` the current scope.
    pub fn push_scope(&mut self, scope_id: TableId)
        ensures
            final(self)@ == old(self)@.enter(scope_id),
    {
        proof {
            use_type_invariant(&*self);
        }
        self.current_scope_id = scope_id;
    }

    /// Goes back to the scope around the current one. Fails, and changes nothing, if the
    /// current scope is a root or is not in the forest.
    pub fn pop_scope(&mut self) -> (result: Result<(), SemanticError>)
        ensures
            match old(self)@.leave() {
                Ok(state) => result is Ok && final(self)@ == state,
                Err(error) => result matches Err(e) && e@ == error && final(self)@ == old(self)@,
            },
    {
        proof {
            use_type_invariant(&*self);
        }
        let parent = match self.current_scope() {
            Err(error) => {
                return Err(error);
            },
            Ok(table) => table.parent,
        };
        match parent {
            Some(outer) => {
                self.current_scope_id = outer;
                Ok(())
            },
            None => Err(SemanticError::RootScopePopped),
        }
    }

    /// Puts `symbol` into the scope `scope_id`. Fails, and changes nothing, if that scope
    /// is not in the forest.
    pub fn insert_into(&mut self, scope_id: TableId, symbol: Symbol) -> (result: Result<
        (),
        SemanticError,
    >)
        ensures
            old(self)@.scopes.contains_key(scope_id) ==> result is Ok && final(self)@ == old(
                self,
            )@.put_in(scope_id, symbol@),
            !old(self)@.scopes.contains_key(scope_id) ==> (result matches Err(e) && e@
                == SemanticErrorView::NoCurrentScope && final(self)@ == old(self)@),
    {
        broadcast use vstd::std_specs::hash::group_hash_axioms;

        proof {
            use_type_invariant(&*self);
        }
        if !self.scopes.contains_key(&scope_id) {
            return Err(SemanticError::NoCurrentScope);
        }
        let ghost before = self@;
        let mut scopes: HashMap<TableId, SymbolTable> = HashMap::new();
        proof {
            assert(scope_views(scopes@) =~= Map::<TableId, ScopeView>::empty());
        }
        std::mem::swap(&mut self.scopes, &mut scopes);
        match scopes.remove(&scope_id) {
            Some(table) => {
                let mut table = table;
                table.insert(symbol);
                scopes.insert(scope_id, table);
            },
            None => {},
        }
        proof {
            assert(scope_views(scopes@) =~= before.put_in(scope_id, symbol@).scopes);
        }
        std::mem::swap(&mut self.scopes, &mut scopes);
        Ok(())
    }

    /// Opens a scope with the identity `scope_id` in the current scope and enters it.
    fn open_block(&mut self, scope_id: TableId)
        requires
            old(self)@.scopes.contains_key(old(self)@.current_scope_id),
            !old(self)@.scopes.contains_key(scope_id),
        ensures
            final(self)@ == old(self)@.open_block(scope_id),
    {
        broadcast use vstd::std_specs::hash::group_hash_axioms;

        proof {
            use_type_invariant(&*self);
        }
        let ghost before = self@;
        let mut table = SymbolTable::with_id("block".to_owned(), scope_id);
        table.parent = Some(self.current_scope_id);
        table.depth = Ghost(before.inner_depth());
        let mut scopes: HashMap<TableId, SymbolTable> = HashMap::new();
        proof {
            assert(scope_views(scopes@) =~= Map::<TableId, ScopeView>::empty());
        }
        std::mem::swap(&mut self.scopes, &mut scopes);
        scopes.insert(scope_id, table);
        proof {
            assert(scope_views(scopes@) =~= before.open_block(scope_id).scopes);
        }
        std::mem::swap(&mut self.scopes, &mut scopes);
        self.current_scope_id = scope_id;
    }

    /// The symbol that `name` denotes in the scope `scope_id`.
    pub fn resolve_name_from(&self, scope_id: TableId, name: &String) -> (symbol: Option<&Symbol>)
        ensures
            match resolve_name(self@.scopes, scope_id, name@) {
                Some(view) => symbol matches Some(found) && found@ == view,
                None => symbol is None,
            },
    {
        broadcast use vstd::std_specs::hash::group_hash_axioms;

        proof {
            use_type_invariant(self);
        }
        let mut current = scope_id;
        loop
            invariant
                self@.well_founded(),
                resolve_name(self@.scopes, current, name@) == resolve_name(
                    self@.scopes,
                    scope_id,
                    name@,
                ),
            decreases
                    (if self@.scopes.contains_key(current) {
                        self@.scopes[current].depth + 1
                    } else {
                        0
                    }),
        {
            match self.scopes.get(&current) {
                None => {
                    return None;
                },
                Some(table) => {
                    match table.lookup(name.clone()) {
                        Some(symbol) => {
                            return Some(symbol);
                        },
                        None => {},
                    }
                    match table.parent {
                        None => {
                            return None;
                        },
                        Some(outer) => {
                            if !self.scopes.contains_key(&outer) {
                                return None;
                            }
                            current = outer;
                        },
                    }
                },
            }
        }
    }

    /// The symbol with the identity `id` that is visible in the scope `scope_id`.
    pub fn resolve_id_from(&self, scope_id: TableId, id: SymbolId) -> (symbol: Option<&Symbol>)
        ensures
            match resolve_id(self@.scopes, scope_id, id) {
                Some(view) => symbol matches Some(found) && found@ == view,
                None => symbol is None,
            },
    {
        broadcast use vstd::std_specs::hash::group_hash_axioms;

        proof {
            use_type_invariant(self);
        }
        let mut current = scope_id;
        loop
            invariant
                self@.well_founded(),
                resolve_id(self@.scopes, current, id) == resolve_id(self@.scopes, scope_id, id),
            decreases
                    (if self@.scopes.contains_key(current) {
                        self@.scopes[current].depth + 1
                    } else {
                        0
                    }),
        {
            match self.scopes.get(&current) {
                None => {
                    return None;
                },
                Some(table) => {
                    match table.lookup_id(id) {
                        Some(symbol) => {
                            return Some(symbol);
                        },
                        None => {},
                    }
                    match table.parent {
                        None => {
                            return None;
                        },
                        Some(outer) => {
                            if !self.scopes.contains_key(&outer) {
                                return None;
                            }
                            current = outer;
                        },
                    }
                },
            }
        }
    }

    /// Analyzes a reference to the variable that `token` names.
    fn analyze_variable(&self, token: &Token) -> (result: Result<SemanticResult, SemanticError>)
        ensures
            analysis_outcome(result) == analysis_of_variable(
                self@,
                token@.value,
                Seq::empty(),
            ).result,
    {
        match self.current_scope() {
            Err(error) => {
                return Err(error);
            },
            Ok(_) => {},
        }
        match self.resolve_name_from(self.current_scope_id, &token.value) {
            None => Err(SemanticError::UnknownVariable(token.value.clone())),
            Some(symbol) => {
                let type_id = match &symbol.variant {
                    SymbolVariant::Variable(variable) => variable.type_id,
                    SymbolVariant::NativeFunction(function) => function.type_id,
                    _ => {
                        return Err(SemanticError::NotAValue(token.value.clone()));
                    },
                };
                Ok(
                    SemanticResult {
                        node: Box::new(SemanticAst::Variable(symbol.symbol_id)),
                        type_id: Some(type_id),
                    },
                )
            },
        }
    }

    /// Declares the variable that `name` names, with the initializer `value` of the type
    /// `type_id`.
    fn declare(
        &mut self,
        name: &Token,
        value: SemanticNode,
        type_id: SymbolId,
        ids: &mut Identities,
    ) -> (result: Result<SemanticResult, SemanticError>)
        ensures
            ({
                let expected = analysis_of_declared(
                    old(self)@,
                    name@.value,
                    value@,
                    type_id,
                    old(ids)@,
                );
                &&& final(self)@ == expected.state
                &&& final(ids)@ == expected.ids
                &&& analysis_outcome(result) == expected.result
            }),
    {
        match self.current_scope() {
            Err(error) => {
                return Err(error);
            },
            Ok(table) => {
                if table.lookup(name.value.clone()).is_some() {
                    return Err(SemanticError::DuplicateDeclaration(name.value.clone()));
                }
            },
        }
        let symbol_id = match ids.take() {
            None => {
                return Err(SemanticError::OutOfIdentities);
            },
            Some(id) => id,
        };
        let symbol = Symbol {
            name: name.value.clone(),
            symbol_id,
            variant: SymbolVariant::Variable(VariableSymbol { type_id }),
        };
        match self.insert_into(self.current_scope_id, symbol) {
            Err(error) => Err(error),
            Ok(_) => Ok(
                SemanticResult {
                    node: Box::new(SemanticAst::Declaration(symbol_id, symbol_id, value)),
                    type_id: None,
                },
            ),
        }
    }

    /// Checks the assignment to `target` of `value`, which is of the type `type_id`.
    fn assign(&self, target: &Ast, value: SemanticNode, type_id: Option<SymbolId>) -> (result:
        Result<SemanticResult, SemanticError>)
        ensures
            analysis_outcome(result) == analysis_of_assigned(
                self@,
                target@,
                value@,
                type_id,
                Seq::empty(),
            ).result,
    {
        match self.current_scope() {
            Err(error) => {
                return Err(error);
            },
            Ok(_) => {},
        }
        let token = match target {
            Ast::Variable(token) => token,
            _ => {
                return Err(SemanticError::NotAVariable);
            },
        };
        match self.resolve_name_from(self.current_scope_id, &token.value) {
            None => Err(SemanticError::UnknownVariable(token.value.clone())),
            Some(symbol) => {
                let declared = match &symbol.variant {
                    SymbolVariant::Variable(variable) => variable.type_id,
                    _ => {
                        return Err(SemanticError::NotAVariable);
                    },
                };
                match type_id {
                    None => Err(SemanticError::MissingValue),
                    Some(found) => {
                        if found == declared {
                            Ok(
                                SemanticResult {
                                    node: Box::new(
                                        SemanticAst::Assignment(symbol.symbol_id, value),
                                    ),
                                    type_id: None,
                                },
                            )
                        } else {
                            Err(
                                SemanticError::TypeMismatch(
                                    self.name_of_type(declared),
                                    self.name_of_type(found),
                                ),
                            )
                        }
                    },
                }
            },
        }
    }

    /// The function type that the callee type `type_id` denotes.
    fn function_type(&self, type_id: Option<SymbolId>) -> (result: Result<
        FunctionTypeSymbol,
        SemanticError,
    >)
        ensures
            match callee_type(self@, type_id) {
                Ok((argument_ids, return_id)) => result matches Ok(function)
                    && function.argument_ids@ == argument_ids && function.return_id == return_id,
                Err(error) => result matches Err(e) && e@ == error,
            },
    {
        let id = match type_id {
            None => {
                return Err(SemanticError::MissingValue);
            },
            Some(id) => id,
        };
        match self.current_scope() {
            Err(error) => {
                return Err(error);
            },
            Ok(_) => {},
        }
        match self.resolve_id_from(self.current_scope_id, id) {
            None => Err(SemanticError::NotAFunction),
            Some(symbol) => match &symbol.variant {
                SymbolVariant::FunctionType(function) => Ok(function.clone()),
                _ => Err(SemanticError::NotAFunction),
            },
        }
    }

    /// Analyzes `ast`, taking from `ids` the identities of the scopes and symbols that
    /// it creates.
    pub fn analyze_with(&mut self, ast: &Ast, ids: &mut Identities) -> (result: Result<
        SemanticResult,
        SemanticError,
    >)
        ensures
            ({
                let expected = analysis(old(self)@, ast@, old(ids)@);
                &&& final(self)@ == expected.state
                &&& final(ids)@ == expected.ids
                &&& analysis_outcome(result) == expected.result
            }),
        decreases ast,
    {
        match ast {
            Ast::Block(items) => {
                let ghost views = node_views(items@);
                proof {
                    assert(ast@ == AstView::Block(views)) by {
                        assert(ast@->Block_0 =~= views);
                    }
                }
                match self.current_scope() {
                    Err(error) => {
                        return Err(error);
                    },
                    Ok(_) => {},
                }
                let scope_id = match ids.take() {
                    None => {
                        return Err(SemanticError::OutOfIdentities);
                    },
                    Some(id) => id,
                };
                if self.scope(scope_id).is_some() {
                    return Err(SemanticError::IdentityInUse);
                }
                self.open_block(scope_id);
                let ghost inner = self@;
                let ghost inner_ids = ids@;
                let mut nodes: Vec<SemanticAst> = Vec::new();
                proof {
                    assert(tree_views(nodes@) =~= Seq::<SemanticAstView>::empty());
                }
                let mut i: usize = 0;
                while i < items.len()
                    invariant
                        0 <= i <= items@.len(),
                        views == node_views(items@),
                        ast@ == AstView::Block(views),
                        *ast == Ast::Block(*items),
                        old(self)@.scopes.contains_key(old(self)@.current_scope_id),
                        old(ids)@.len() > 0,
                        scope_id == old(ids)@[0],
                        !old(self)@.scopes.contains_key(scope_id),
                        inner == old(self)@.open_block(scope_id),
                        inner_ids == old(ids)@.drop_first(),
                        analysis_of_statements(self@, views, i as int, ids@, tree_views(nodes@))
                            == analysis_of_statements(inner, views, 0, inner_ids, Seq::empty()),
                    decreases items@.len() - i,
                {
                    let ghost before = tree_views(nodes@);
                    match self.analyze_with(&items[i], ids) {
                        Err(error) => {
                            return Err(error);
                        },
                        Ok(analyzed) => {
                            let node = *analyzed.node;
                            nodes.push(node);
                            proof {
                                assert(tree_views(nodes@) =~= before.push(node@));
                            }
                        },
                    }
                    i += 1;
                }
                match self.pop_scope() {
                    Err(error) => Err(error),
                    Ok(_) => {
                        proof {
                            assert(tree_views(nodes@) =~= SemanticAst::Block(
                                nodes,
                                scope_id,
                            )@->Block_0);
                        }
                        Ok(
                            SemanticResult {
                                node: Box::new(SemanticAst::Block(nodes, scope_id)),
                                type_id: None,
                            },
                        )
                    },
                }
            },
            Ast::Number(token) => Ok(
                SemanticResult {
                    node: Box::new(SemanticAst::Number(token.clone())),
                    type_id: Some(INT_TYPE_ID),
                },
            ),
            Ast::Truth(token) => Ok(
                SemanticResult {
                    node: Box::new(SemanticAst::Truth(token.clone())),
                    type_id: Some(TRUTH_TYPE_ID),
                },
            ),
            Ast::Text(token) => Ok(
                SemanticResult {
                    node: Box::new(SemanticAst::Text(token.clone())),
                    type_id: Some(TEXT_TYPE_ID),
                },
            ),
            Ast::Variable(token) => {
                proof {
                    use_type_invariant(&*self);
                }
                self.analyze_variable(token)
            },
            Ast::Declaration(name, initializer) => {
                let value = match self.analyze_with(initializer, ids) {
                    Err(error) => {
                        return Err(error);
                    },
                    Ok(analyzed) => analyzed,
                };
                match value.type_id {
                    None => Err(SemanticError::MissingValue),
                    Some(type_id) => self.declare(name, value.node, type_id, ids),
                }
            },
            Ast::Assignment(target, source) => {
                let value = match self.analyze_with(source, ids) {
                    Err(error) => {
                        return Err(error);
                    },
                    Ok(analyzed) => analyzed,
                };
                self.assign(target, value.node, value.type_id)
            },
            Ast::FunctionCall(callee, arguments) => {
                let ghost views = node_views(arguments@);
                proof {
                    assert(ast@->FunctionCall_1 =~= views);
                }
                let function = match self.analyze_with(callee, ids) {
                    Err(error) => {
                        return Err(error);
                    },
                    Ok(analyzed) => analyzed,
                };
                let signature = match self.function_type(function.type_id) {
                    Err(error) => {
                        return Err(error);
                    },
                    Ok(signature) => signature,
                };
                if arguments.len() != signature.argument_ids.len() {
                    return Err(SemanticError::WrongArgumentCount);
                }
                let ghost start = self@;
                let ghost start_ids = ids@;
                let ghost expected = signature.argument_ids@;
                let mut nodes: Vec<SemanticNode> = Vec::new();
                proof {
                    assert(boxed_tree_views(nodes@) =~= Seq::<SemanticAstView>::empty());
                }
                let mut i: usize = 0;
                while i < arguments.len()
                    invariant
                        0 <= i <= arguments@.len(),
                        views == node_views(arguments@),
                        *ast == Ast::FunctionCall(*callee, *arguments),
                        ast@ == AstView::FunctionCall(Box::new(callee@), views),
                        analysis(old(self)@, callee@, old(ids)@).state == start,
                        analysis(old(self)@, callee@, old(ids)@).ids == start_ids,
                        analysis(old(self)@, callee@, old(ids)@).result == Ok::<
                            Analyzed,
                            SemanticErrorView,
                        >(function@),
                        callee_type(start, function.type_id) == Ok::<
                            (Seq<SymbolId>, Option<SymbolId>),
                            SemanticErrorView,
                        >((expected, signature.return_id)),
                        expected == signature.argument_ids@,
                        arguments@.len() == expected.len(),
                        analysis_of_arguments(
                            self@,
                            views,
                            i as int,
                            expected,
                            ids@,
                            boxed_tree_views(nodes@),
                        ) == analysis_of_arguments(
                            start,
                            views,
                            0,
                            expected,
                            start_ids,
                            Seq::empty(),
                        ),
                    decreases arguments@.len() - i,
                {
                    let ghost before = boxed_tree_views(nodes@);
                    let argument = match self.analyze_with(&arguments[i], ids) {
                        Err(error) => {
                            return Err(error);
                        },
                        Ok(analyzed) => analyzed,
                    };
                    match argument.type_id {
                        None => {
                            return Err(SemanticError::MissingValue);
                        },
                        Some(type_id) => {
                            if type_id != signature.argument_ids[i] {
                                return Err(
                                    SemanticError::TypeMismatch(
                                        self.name_of_type(signature.argument_ids[i]),
                                        self.name_of_type(type_id),
                                    ),
                                );
                            }
                        },
                    }
                    let ghost node_view = argument.node@;
                    nodes.push(argument.node);
                    proof {
                        assert(boxed_tree_views(nodes@) =~= before.push(node_view));
                    }
                    i += 1;
                }
                proof {
                    assert(boxed_tree_views(nodes@) =~= SemanticAst::FunctionCall(
                        function.node,
                        nodes,
                    )@->FunctionCall_1);
                }
                Ok(
                    SemanticResult {
                        node: Box::new(SemanticAst::FunctionCall(function.node, nodes)),
                        type_id: signature.return_id,
                    },
                )
            },
            Ast::If(condition, body) => {
                let test = match self.analyze_with(condition, ids) {
                    Err(error) => {
                        return Err(error);
                    },
                    Ok(analyzed) => analyzed,
                };
                let inner = match self.analyze_with(body, ids) {
                    Err(error) => {
                        return Err(error);
                    },
                    Ok(analyzed) => analyzed,
                };
                match test.type_id {
                    None => Err(SemanticError::MissingValue),
                    Some(type_id) => {
                        if type_id == TRUTH_TYPE_ID {
                            Ok(
                                SemanticResult {
                                    node: Box::new(SemanticAst::If(test.node, inner.node)),
                                    type_id: None,
                                },
                            )
                        } else {
                            Err(SemanticError::ConditionNotTruth)
                        }
                    },
                }
            },
            Ast::DebugPrint(operand) => {
                let value = match self.analyze_with(operand, ids) {
                    Err(error) => {
                        return Err(error);
                    },
                    Ok(analyzed) => analyzed,
                };
                match value.type_id {
                    None => Err(SemanticError::MissingValue),
                    Some(_) => Ok(
                        SemanticResult {
                            node: Box::new(SemanticAst::DebugPrint(value.node)),
                            type_id: None,
                        },
                    ),
                }
            },
        }
    }

    /// Analyzes `ast` with freshly drawn identities for the scopes and symbols that it
    /// creates: what [`SemanticAnalyzer::analyze_with`] does with some supply that holds
    /// as many identities as `ast` can need.
    pub fn analyze_node(&mut self, ast: Node) -> (result: Result<SemanticResult, SemanticError>)
        ensures
            exists|ids: Seq<u128>|
                supplies(ids, identities_needed(ast@)) && all_random(ids)
                    && #[trigger] is_analysis(
                    old(self)@,
                    ast@,
                    ids,
                    final(self)@,
                    analysis_outcome(result),
                ),
    {
        let count = count_identities(&ast);
        let mut ids = Identities::draw(count);
        let ghost supplied = ids@;
        let result = self.analyze_with(&ast, &mut ids);
        proof {
            assert(is_analysis(old(self)@, ast@, supplied, self@, analysis_outcome(result)));
        }
        result
    }

    /// Analyzes `ast` as [`SemanticAnalyzer::analyze_node`] does.
    pub fn analyze(&mut self, ast: Node) -> (result: Result<SemanticResult, SemanticError>)
        ensures
            exists|ids: Seq<u128>|
                supplies(ids, identities_needed(ast@)) && all_random(ids)
                    && #[trigger] is_analysis(
                    old(self)@,
                    ast@,
                    ids,
                    final(self)@,
                    analysis_outcome(result),
                ),
    {
        self.analyze_node(ast)
    }

    /// The symbol that the variable reference `node` denotes in the current scope; the
    /// error if `node` is no variable reference or the current scope is not in the forest.
    pub fn symbol_from_node(&self, node: &Ast) -> (result: Result<Option<&Symbol>, SemanticError>)
        ensures
            !self@.scopes.contains_key(self@.current_scope_id) ==> (result matches Err(error)
                && error@ == SemanticErrorView::NoCurrentScope),
            self@.scopes.contains_key(self@.current_scope_id) ==> match node@ {
                AstView::Variable(token) => result matches Ok(symbol) && match self@.named(
                    token.value,
                ) {
                    Some(view) => symbol matches Some(found) && found@ == view,
                    None => symbol is None,
                },
                _ => result matches Err(error) && error@ == SemanticErrorView::NotAVariable,
            },
    {
        match self.current_scope() {
            Err(error) => {
                return Err(error);
            },
            Ok(_) => {},
        }
        match node {
            Ast::Variable(token) => Ok(
                self.resolve_name_from(self.current_scope_id, &token.value),
            ),
            _ => Err(SemanticError::NotAVariable),
        }
    }

    /// The name under which errors report the type `id`, seen from the current scope.
    pub fn name_of_type(&self, id: SymbolId) -> (name: String)
        ensures
            name@ == name_of_type(self@.scopes, self@.current_scope_id, id),
    {
        match self.resolve_id_from(self.current_scope_id, id) {
            Some(symbol) => symbol.name.clone(),
            None => "<unknown>".to_owned(),
        }
    }
}

/// Whether analyzing `ast` in the state `before` with the identities `ids` leads to the
/// state `after` and gives `result`.
pub open spec fn is_analysis(
    before: AnalyzerView,
    ast: AstView,
    ids: Seq<u128>,
    after: AnalyzerView,
    result: Result<Analyzed, SemanticErrorView>,
) -> bool {
    &&& analysis(before, ast, ids).state == after
    &&& analysis(before, ast, ids).result == result
}

/// Whether `ids` holds `needed` identities, or as many as a machine can count.
pub open spec fn supplies(ids: Seq<u128>, needed: nat) -> bool {
    ids.len() == needed || (ids.len() == usize::MAX && needed > usize::MAX)
}

/// The number of identities that the analysis of `ast` takes at most: one for each block
/// and one for each declaration.
pub open spec fn identities_needed(ast: AstView) -> nat
    decreases ast, 0int,
{
    match ast {
        AstView::Block(nodes) => 1 + identities_needed_from(nodes, 0),
        AstView::Number(_) => 0,
        AstView::Truth(_) => 0,
        AstView::Text(_) => 0,
        AstView::Variable(_) => 0,
        AstView::Assignment(target, value) => identities_needed(*value),
        AstView::Declaration(_, value) => 1 + identities_needed(*value),
        AstView::FunctionCall(callee, arguments) => identities_needed(*callee)
            + identities_needed_from(arguments, 0),
        AstView::If(condition, body) => identities_needed(*condition) + identities_needed(*body),
        AstView::DebugPrint(value) => identities_needed(*value),
    }
}

/// The number of identities that the analysis of the nodes from `start` on takes at most.
pub open spec fn identities_needed_from(nodes: Seq<AstView>, start: int) -> nat
    decreases nodes, nodes.len() - start,
{
    if 0 <= start < nodes.len() {
        identities_needed(nodes[start]) + identities_needed_from(nodes, start + 1)
    } else {
        0
    }
}

/// The count `count`, or the largest count that a machine holds if `count` is beyond it.
pub open spec fn capped(count: nat) -> usize {
    if count > usize::MAX {
        usize::MAX
    } else {
        count as usize
    }
}

/// The sum of two counts, capped at the largest count.
pub fn capped_sum(first: usize, second: usize) -> (sum: usize)
    ensures
        sum == capped((first + second) as nat),
{
    if first > usize::MAX - second {
        usize::MAX
    } else {
        first + second
    }
}

/// The number of identities that the analysis of `ast` takes at most, capped at the
/// largest count.
pub fn count_identities(ast: &Ast) -> (count: usize)
    ensures
        count == capped(identities_needed(ast@)),
    decreases ast,
{
    match ast {
        Ast::Block(nodes) => {
            proof {
                assert(ast@->Block_0 =~= node_views(nodes@));
            }
            capped_sum(1, count_identities_of(nodes))
        },
        Ast::Number(_) => 0,
        Ast::Truth(_) => 0,
        Ast::Text(_) => 0,
        Ast::Variable(_) => 0,
        Ast::Assignment(_, value) => count_identities(value),
        Ast::Declaration(_, value) => capped_sum(1, count_identities(value)),
        Ast::FunctionCall(callee, arguments) => {
            proof {
                assert(ast@->FunctionCall_1 =~= node_views(arguments@));
            }
            capped_sum(count_identities(callee), count_identities_of(arguments))
        },
        Ast::If(condition, body) => capped_sum(
            count_identities(condition),
            count_identities(body),
        ),
        Ast::DebugPrint(value) => count_identities(value),
    }
}

/// The number of identities that the analysis of `nodes` takes at most, capped at the
/// largest count.
pub fn count_identities_of(nodes: &Vec<Node>) -> (count: usize)
    ensures
        count == capped(identities_needed_from(node_views(nodes@), 0)),
    decreases nodes,
{
    let ghost views = node_views(nodes@);
    let mut count: usize = 0;
    let mut i: usize = nodes.len();
    while i > 0
        invariant
            0 <= i <= nodes@.len(),
            views == node_views(nodes@),
            count == capped(identities_needed_from(views, i as int)),
        decreases i,
    {
        i -= 1;
        count = capped_sum(count_identities(&nodes[i]), count);
    }
    count
}

/// The symbol with the identity `id` that is visible from a scope whose symbols are
/// `symbols` and whose parent is `parent`: the one among `symbols`, else the one visible
/// in the parent.
pub open spec fn visible_by_id(
    scopes: Map<TableId, ScopeView>,
    scope: ScopeView,
    id: SymbolId,
) -> Option<SymbolView> {
    match find_id(scope.symbols, id) {
        Some(symbol) => Some(symbol),
        None => match scope.parent {
            Some(outer) => resolve_id(scopes, outer, id),
            None => None,
        },
    }
}

/// The symbol that `name` denotes in a scope: the first of that name in the scope
/// itself, else what the name denotes in its parent.
pub open spec fn visible_by_name(
    scopes: Map<TableId, ScopeView>,
    scope: ScopeView,
    name: Seq<char>,
) -> Option<SymbolView> {
    match find_name(scope.symbols, name) {
        Some(symbol) => Some(symbol),
        None => match scope.parent {
            Some(outer) => resolve_name(scopes, outer, name),
            None => None,
        },
    }
}

impl SymbolTable {
    /// The symbol with the identity `id` that is visible from this scope, whose parents
    /// are looked up in `semantic_analyzer`.
    pub fn symbol_from_id<'a>(
        &'a self,
        id: SymbolId,
        semantic_analyzer: &'a SemanticAnalyzer,
    ) -> (symbol: Option<&'a Symbol>)
        ensures
            match visible_by_id(semantic_analyzer@.scopes, self@, id) {
                Some(view) => symbol matches Some(found) && found@ == view,
                None => symbol is None,
            },
    {
        match self.lookup_id(id) {
            Some(symbol) => Some(symbol),
            None => match self.parent {
                Some(outer) => semantic_analyzer.resolve_id_from(outer, id),
                None => None,
            },
        }
    }

    /// The scope around this one, looked up in `semantic_analyzer`.
    pub fn parent_scope<'a>(&self, semantic_analyzer: &'a SemanticAnalyzer) -> (table: Option<
        &'a SymbolTable,
    >)
        ensures
            match table {
                Some(found) => self@.parent matches Some(outer)
                    && semantic_analyzer@.scopes.contains_key(outer) && found@
                    == semantic_analyzer@.scopes[outer],
                None => self@.parent matches Some(outer)
                    ==> !semantic_analyzer@.scopes.contains_key(outer),
            },
    {
        match self.parent {
            Some(outer) => semantic_analyzer.scope(outer),
            None => None,
        }
    }

    /// The name of the type `id`, if it is visible from this scope, whose parents are
    /// looked up in `semantic_analyzer`.
    pub fn name_of_type(&self, id: SymbolId, semantic_analyzer: &SemanticAnalyzer) -> (name:
        Option<String>)
        ensures
            match visible_by_id(semantic_analyzer@.scopes, self@, id) {
                Some(view) => name matches Some(found) && found@ == view.name,
                None => name is None,
            },
    {
        match self.symbol_from_id(id, semantic_analyzer) {
            Some(symbol) => Some(symbol.name.clone()),
            None => None,
        }
    }

    /// The symbol that the variable reference `node` denotes in this scope, whose parents
    /// are looked up in `semantic_analyzer`; the error if `node` is no variable reference.
    pub fn symbol_from_node<'a>(
        &'a self,
        node: &Ast,
        semantic_analyzer: &'a SemanticAnalyzer,
    ) -> (result: Result<Option<&'a Symbol>, SemanticError>)
        ensures
            match node@ {
                AstView::Variable(token) => result matches Ok(symbol) && match visible_by_name(
                    semantic_analyzer@.scopes,
                    self@,
                    token.value,
                ) {
                    Some(view) => symbol matches Some(found) && found@ == view,
                    None => symbol is None,
                },
                _ => result matches Err(error) && error@ == SemanticErrorView::NotAVariable,
            },
    {
        let token = match node {
            Ast::Variable(token) => token,
            _ => {
                return Err(SemanticError::NotAVariable);
            },
        };
        match self.lookup(token.value.clone()) {
            Some(symbol) => Ok(Some(symbol)),
            None => match self.parent {
                Some(outer) => Ok(semantic_analyzer.resolve_name_from(outer, &token.value)),
                None => Ok(None),
            },
        }
    }
}

/// The names of the types `ids` from `start` on, each after a comma but the first,
/// appended to `text`.
pub open spec fn joined_type_names(
    scopes: Map<TableId, ScopeView>,
    scope_id: TableId,
    ids: Seq<SymbolId>,
    start: int,
    text: Seq<char>,
) -> Seq<char>
    decreases ids.len() - start,
{
    if !(0 <= start < ids.len()) {
        text
    } else {
        let separated = if start > 0 {
            text.push(',')
        } else {
            text
        };
        joined_type_names(
            scopes,
            scope_id,
            ids,
            start + 1,
            separated + name_of_type(scopes, scope_id, ids[start]),
        )
    }
}

/// The name of the function type with the argument types `argument_ids` and the return
/// type `return_id`: `<`, the names of the argument types separated by commas, `:`, the
/// name of the return type if there is one, and `>`. A type that is not visible from
/// the scope `scope_id` goes by the name `<unknown>`.
pub open spec fn function_type_name(
    scopes: Map<TableId, ScopeView>,
    scope_id: TableId,
    return_id: Option<SymbolId>,
    argument_ids: Seq<SymbolId>,
) -> Seq<char> {
    let arguments = joined_type_names(scopes, scope_id, argument_ids, 0, seq!['<']).push(':');
    let returned = match return_id {
        Some(id) => arguments + name_of_type(scopes, scope_id, id),
        None => arguments,
    };
    returned.push('>')
}

impl FunctionTypeSymbol {
    /// The name of the function type with the given return type and argument types, as
    /// seen from the current scope of `semantic_analyzer`.
    pub fn construct_type_name(
        return_id: Option<SymbolId>,
        argument_ids: Vec<SymbolId>,
        semantic_analyzer: &SemanticAnalyzer,
    ) -> (name: String)
        ensures
            name@ == function_type_name(
                semantic_analyzer@.scopes,
                semantic_analyzer@.current_scope_id,
                return_id,
                argument_ids@,
            ),
    {
        let ghost scopes = semantic_analyzer@.scopes;
        let ghost scope_id = semantic_analyzer@.current_scope_id;
        let mut name = String::new();
        name.push('<');
        proof {
            assert(name@ =~= seq!['<']);
        }
        let mut i: usize = 0;
        while i < argument_ids.len()
            invariant
                0 <= i <= argument_ids@.len(),
                scopes == semantic_analyzer@.scopes,
                scope_id == semantic_analyzer@.current_scope_id,
                joined_type_names(scopes, scope_id, argument_ids@, i as int, name@)
                    == joined_type_names(scopes, scope_id, argument_ids@, 0, seq!['<']),
            decreases argument_ids@.len() - i,
        {
            if i > 0 {
                name.push(',');
            }
            let argument = semantic_analyzer.name_of_type(argument_ids[i]);
            name.append(argument.as_str());
            i += 1;
        }
        name.push(':');
        match return_id {
            Some(id) => {
                let returned = semantic_analyzer.name_of_type(id);
                name.append(returned.as_str());
            },
            None => {},
        }
        name.push('>');
        name
    }
}

/// How a semantic error is described to a reader.
pub open spec fn semantic_error_description(error: SemanticErrorView) -> Seq<char> {
    match error {
        SemanticErrorView::UnknownVariable(name) => "Variable "@ + name + " not found"@,
        SemanticErrorView::NotAValue(name) => "Symbol "@ + name + " does not contain a value"@,
        SemanticErrorView::DuplicateDeclaration(name) => "Variable called "@ + name
            + " already exists."@,
        SemanticErrorView::TypeMismatch(expected, got) => "Type mismatch: Expected type \""@
            + expected + "\" but got type \""@ + got + "\""@,
        SemanticErrorView::ConditionNotTruth => "If condition must be a truth"@,
        SemanticErrorView::WrongArgumentCount => "Incorrect number of arguments"@,
        SemanticErrorView::NotAVariable => "Symbol is not a variable"@,
        SemanticErrorView::NotAFunction => "Symbol is not a function"@,
        SemanticErrorView::MissingValue => "Expected a valid expression (Must return value)"@,
        SemanticErrorView::NoCurrentScope => "There should always be a scope"@,
        SemanticErrorView::RootScopePopped => "The root scope has no parent to go back to"@,
        SemanticErrorView::IdentityInUse => "The identity of a new scope is already in use"@,
        SemanticErrorView::OutOfIdentities => "The supply of identities is used up"@,
    }
}

impl SemanticError {
    /// A description of this error for a reader.
    pub fn description(&self) -> (text: String)
        ensures
            text@ == semantic_error_description(self@),
    {
        match self {
            SemanticError::UnknownVariable(name) => {
                let mut text = "Variable ".to_owned();
                text.append(name.as_str());
                text.append(" not found");
                text
            },
            SemanticError::NotAValue(name) => {
                let mut text = "Symbol ".to_owned();
                text.append(name.as_str());
                text.append(" does not contain a value");
                text
            },
            SemanticError::DuplicateDeclaration(name) => {
                let mut text = "Variable called ".to_owned();
                text.append(name.as_str());
                text.append(" already exists.");
                text
            },
            SemanticError::TypeMismatch(expected, got) => {
                let mut text = "Type mismatch: Expected type \"".to_owned();
                text.append(expected.as_str());
                text.append("\" but got type \"");
                text.append(got.as_str());
                text.append("\"");
                text
            },
            SemanticError::ConditionNotTruth => "If condition must be a truth".to_owned(),
            SemanticError::WrongArgumentCount => "Incorrect number of arguments".to_owned(),
            SemanticError::NotAVariable => "Symbol is not a variable".to_owned(),
            SemanticError::NotAFunction => "Symbol is not a function".to_owned(),
            SemanticError::MissingValue =>
                "Expected a valid expression (Must return value)".to_owned(),
            SemanticError::NoCurrentScope => "There should always be a scope".to_owned(),
            SemanticError::RootScopePopped =>
                "The root scope has no parent to go back to".to_owned(),
            SemanticError::IdentityInUse =>
                "The identity of a new scope is already in use".to_owned(),
            SemanticError::OutOfIdentities => "The supply of identities is used up".to_owned(),
        }
    }
}

} // verus!
