//! Syntactic analysis: tokens to an untyped syntax tree.

use crate::base::lexer::{kind_name, token_description, token_views, Token, TokenType, TokenView};
use vstd::prelude::*;

verus! {

/// A node of the syntax tree, boxed.
pub type Node = Box<Ast>;

/// The untyped syntax tree.
#[derive(Debug)]
pub enum Ast {
    /// An ordered list of statements.
    Block(Vec<Node>),
    /// An integer literal.
    Number(Token),
    /// A truth literal.
    Truth(Token),
    /// A text literal.
    Text(Token),
    /// A reference to a variable, by its name token.
    Variable(Token),
    /// An assignment: the target expression, then the value expression.
    Assignment(Node, Node),
    /// A declaration: the name token, then the initializer.
    Declaration(Token, Node),
    /// A call: the callee, then the arguments in order.
    FunctionCall(Node, Vec<Node>),
    /// A conditional: the condition, then the body.
    If(Node, Node),
    /// A debug-print of an expression.
    DebugPrint(Node),
}

/// The mathematical value of an [`Ast`].
pub enum AstView {
    Block(Seq<AstView>),
    Number(TokenView),
    Truth(TokenView),
    Text(TokenView),
    Variable(TokenView),
    Assignment(Box<AstView>, Box<AstView>),
    Declaration(TokenView, Box<AstView>),
    FunctionCall(Box<AstView>, Seq<AstView>),
    If(Box<AstView>, Box<AstView>),
    DebugPrint(Box<AstView>),
}

impl Ast {
    /// The mathematical value of the tree.
    pub open spec fn model(&self) -> AstView
        decreases self,
    {
        match self {
            Ast::Block(nodes) => AstView::Block(
                Seq::new(nodes@.len(), |i: int| if 0 <= i < nodes@.len() {
                    nodes@[i].model()
                } else {
                    arbitrary()
                }),
            ),
            Ast::Number(token) => AstView::Number(token@),
            Ast::Truth(token) => AstView::Truth(token@),
            Ast::Text(token) => AstView::Text(token@),
            Ast::Variable(token) => AstView::Variable(token@),
            Ast::Assignment(target, value) => AstView::Assignment(
                Box::new(target.model()),
                Box::new(value.model()),
            ),
            Ast::Declaration(name, value) => AstView::Declaration(name@, Box::new(value.model())),
            Ast::FunctionCall(callee, arguments) => AstView::FunctionCall(
                Box::new(callee.model()),
                Seq::new(arguments@.len(), |i: int| if 0 <= i < arguments@.len() {
                    arguments@[i].model()
                } else {
                    arbitrary()
                }),
            ),
            Ast::If(condition, body) => AstView::If(
                Box::new(condition.model()),
                Box::new(body.model()),
            ),
            Ast::DebugPrint(value) => AstView::DebugPrint(Box::new(value.model())),
        }
    }
}

impl View for Ast {
    type V = AstView;

    open spec fn view(&self) -> AstView {
        self.model()
    }
}

impl Clone for Ast {
    fn clone(&self) -> (copy: Self)
        ensures
            copy@ == self@,
        decreases self,
    {
        match self {
            Ast::Block(nodes) => {
                let copies = clone_nodes(nodes);
                proof {
                    assert(Ast::Block(copies)@->Block_0 =~= node_views(copies@));
                    assert(self@->Block_0 =~= node_views(nodes@));
                }
                Ast::Block(copies)
            },
            Ast::Number(token) => Ast::Number(token.clone()),
            Ast::Truth(token) => Ast::Truth(token.clone()),
            Ast::Text(token) => Ast::Text(token.clone()),
            Ast::Variable(token) => Ast::Variable(token.clone()),
            Ast::Assignment(target, value) => Ast::Assignment(
                Box::new((&**target).clone()),
                Box::new((&**value).clone()),
            ),
            Ast::Declaration(name, value) => Ast::Declaration(
                name.clone(),
                Box::new((&**value).clone()),
            ),
            Ast::FunctionCall(callee, arguments) => {
                let copies = clone_nodes(arguments);
                let callee_copy = Box::new((&**callee).clone());
                proof {
                    assert(Ast::FunctionCall(callee_copy, copies)@->FunctionCall_1 =~= node_views(
                        copies@,
                    ));
                    assert(self@->FunctionCall_1 =~= node_views(arguments@));
                }
                Ast::FunctionCall(callee_copy, copies)
            },
            Ast::If(condition, body) => Ast::If(
                Box::new((&**condition).clone()),
                Box::new((&**body).clone()),
            ),
            Ast::DebugPrint(value) => Ast::DebugPrint(Box::new((&**value).clone())),
        }
    }
}

/// Copies of `nodes`, in order.
fn clone_nodes(nodes: &Vec<Node>) -> (copies: Vec<Node>)
    ensures
        node_views(copies@) == node_views(nodes@),
    decreases nodes,
{
    let mut copies: Vec<Node> = Vec::new();
    let mut i: usize = 0;
    proof {
        assert(node_views(copies@) =~= node_views(nodes@).take(0));
    }
    while i < nodes.len()
        invariant
            0 <= i <= nodes@.len(),
            node_views(copies@) == node_views(nodes@).take(i as int),
        decreases nodes@.len() - i,
    {
        let ghost before = node_views(copies@);
        let copy = Box::new((&*nodes[i]).clone());
        copies.push(copy);
        proof {
            assert(node_views(copies@) =~= before.push(copy@));
            assert(node_views(nodes@).take(i + 1) =~= node_views(nodes@).take(i as int).push(
                nodes@[i as int]@,
            ));
        }
        i += 1;
    }
    proof {
        assert(node_views(nodes@).take(nodes@.len() as int) =~= node_views(nodes@));
    }
    copies
}

/// Why a token sequence is no program.
#[derive(Debug)]
pub enum Error {
    /// The input ended where a token was needed.
    SuddenEndOfFile,
    /// A token of the first kind was needed where the second stands.
    UnexpectedToken(TokenType, Token),
    /// An expression was needed where this token stands.
    ExpectedExpression(Token),
    /// A declaration lacks its `=`: the token found in its place, or `None` at the end
    /// of the input.
    ExpectedAssignment(Option<Token>),
}

/// The mathematical value of an [`Error`].
pub enum ErrorView {
    SuddenEndOfFile,
    UnexpectedToken(TokenType, TokenView),
    ExpectedExpression(TokenView),
    ExpectedAssignment(Option<TokenView>),
}

impl View for Error {
    type V = ErrorView;

    open spec fn view(&self) -> ErrorView {
        match self {
            Error::SuddenEndOfFile => ErrorView::SuddenEndOfFile,
            Error::UnexpectedToken(expected, got) => ErrorView::UnexpectedToken(*expected, got@),
            Error::ExpectedExpression(got) => ErrorView::ExpectedExpression(got@),
            Error::ExpectedAssignment(got) => ErrorView::ExpectedAssignment(
                match got {
                    Some(token) => Some(token@),
                    None => None,
                },
            ),
        }
    }
}

/// What parsing a construct gives: the construct or the error, and the position at which
/// parsing stopped.
pub struct Parsed<T> {
    pub result: Result<T, ErrorView>,
    pub end: int,
}

/// A successful parse of `value` that stops at `end`.
pub open spec fn done<T>(value: T, end: int) -> Parsed<T> {
    Parsed { result: Ok(value), end }
}

/// A failed parse that stops at `end`.
pub open spec fn fail<T>(error: ErrorView, end: int) -> Parsed<T> {
    Parsed { result: Err(error), end }
}

/// The kind of the token at `pos`, if there is one.
pub open spec fn kind_at(tokens: Seq<TokenView>, pos: int) -> Option<TokenType> {
    if 0 <= pos < tokens.len() {
        Some(tokens[pos].token_type)
    } else {
        None
    }
}

/// The end of the run of line breaks that starts at `pos`.
pub open spec fn newlines_end(tokens: Seq<TokenView>, pos: int) -> int
    decreases tokens.len() - pos,
{
    if kind_at(tokens, pos) == Some(TokenType::NewLine) {
        newlines_end(tokens, pos + 1)
    } else {
        pos
    }
}

/// The position `end` at which a construct stopped, kept between `from` and the end of
/// the tokens. A construct that was parsed from the position before `from` always stops
/// in that range, so this is `end` itself (see [`lemma_postfix_bounds`] and
/// [`lemma_statement_bounds`]). It stands where a construct goes on after a part of
/// itself, and shows that the recursion of the grammar is well founded.
pub open spec fn resume(tokens: Seq<TokenView>, from: int, end: int) -> int {
    if end < from {
        from
    } else if end > tokens.len() {
        tokens.len() as int
    } else {
        end
    }
}

/// A token of kind `kind` at `pos`.
pub open spec fn expect(tokens: Seq<TokenView>, pos: int, kind: TokenType) -> Parsed<TokenView> {
    if !(0 <= pos < tokens.len()) {
        fail(ErrorView::SuddenEndOfFile, pos)
    } else if tokens[pos].token_type == kind {
        done(tokens[pos], pos + 1)
    } else {
        fail(ErrorView::UnexpectedToken(kind, tokens[pos]), pos)
    }
}

/// The expression that a single token is, if it is one: a literal or a variable.
pub open spec fn leaf(token: TokenView) -> Option<AstView> {
    match token.token_type {
        TokenType::Number => Some(AstView::Number(token)),
        TokenType::Truth => Some(AstView::Truth(token)),
        TokenType::Text => Some(AstView::Text(token)),
        TokenType::Name => Some(AstView::Variable(token)),
        _ => None,
    }
}

/// A factor at `pos`, after any line breaks: a literal or a variable.
pub open spec fn factor(tokens: Seq<TokenView>, pos: int) -> Parsed<AstView> {
    let start = newlines_end(tokens, pos);
    if !(0 <= start < tokens.len()) {
        fail(ErrorView::SuddenEndOfFile, start)
    } else {
        match leaf(tokens[start]) {
            Some(expression) => done(expression, start + 1),
            None => fail(ErrorView::ExpectedExpression(tokens[start]), start),
        }
    }
}

/// The terminator of a statement at `pos`: a `;` or a line break, each with the line
/// breaks that follow; the end of the input; or a `}`, which is left in place.
pub open spec fn terminator(tokens: Seq<TokenView>, pos: int) -> Parsed<()> {
    match kind_at(tokens, pos) {
        None => done((), pos),
        Some(TokenType::RightCurly) => done((), pos),
        Some(TokenType::SemiColon) => done((), newlines_end(tokens, pos + 1)),
        Some(TokenType::NewLine) => done((), newlines_end(tokens, pos + 1)),
        Some(_) => fail(ErrorView::UnexpectedToken(TokenType::NewLine, tokens[pos]), pos),
    }
}

/// A postfix expression at `pos`: a factor and the assignment and call suffixes after it.
pub open spec fn postfix(tokens: Seq<TokenView>, pos: int) -> Parsed<AstView>
    decreases tokens.len() - pos, 2int,
{
    let first = factor(tokens, pos);
    match first.result {
        Err(error) => fail(error, first.end),
        Ok(expression) => {
            proof {
                lemma_newlines_end_bounds(tokens, pos);
            }
            suffixes(tokens, first.end, expression)
        },
    }
}

/// The `=` of an assignment or a declaration at `pos`.
pub open spec fn expect_assign(tokens: Seq<TokenView>, pos: int) -> Parsed<TokenView> {
    match kind_at(tokens, pos) {
        Some(TokenType::Assign) => done(tokens[pos], pos + 1),
        Some(_) => fail(ErrorView::ExpectedAssignment(Some(tokens[pos])), pos),
        None => fail(ErrorView::ExpectedAssignment(None), pos),
    }
}

/// An assignment to `target` whose `=` stands at `pos`.
pub open spec fn assignment(tokens: Seq<TokenView>, pos: int, target: AstView) -> Parsed<AstView>
    decreases tokens.len() - pos, 0int,
{
    let sign = expect_assign(tokens, pos);
    match sign.result {
        Err(error) => fail(error, sign.end),
        Ok(_) => {
            let value = postfix(tokens, pos + 1);
            match value.result {
                Err(error) => fail(error, value.end),
                Ok(expression) => done(
                    AstView::Assignment(Box::new(target), Box::new(expression)),
                    value.end,
                ),
            }
        },
    }
}

/// A call of `callee` whose `(` stands at `pos`.
pub open spec fn call(tokens: Seq<TokenView>, pos: int, callee: AstView) -> Parsed<AstView>
    decreases tokens.len() - pos, 0int,
{
    let open = expect(tokens, pos, TokenType::LeftParen);
    match open.result {
        Err(error) => fail(error, open.end),
        Ok(_) => {
            proof {
                lemma_newlines_end_bounds(tokens, pos + 1);
            }
            let list = arguments(tokens, newlines_end(tokens, pos + 1), Seq::empty());
            match list.result {
                Err(error) => fail(error, list.end),
                Ok(values) => {
                    let close = expect(tokens, list.end, TokenType::RightParen);
                    match close.result {
                        Err(error) => fail(error, close.end),
                        Ok(_) => done(
                            AstView::FunctionCall(Box::new(callee), values),
                            close.end,
                        ),
                    }
                },
            }
        },
    }
}

/// The suffixes at `pos` of the expression built so far: `= value` makes it the target
/// of an assignment, `(arguments)` the callee of a call.
pub open spec fn suffixes(tokens: Seq<TokenView>, pos: int, expression: AstView) -> Parsed<
    AstView,
>
    decreases tokens.len() - pos, 1int,
{
    match kind_at(tokens, pos) {
        Some(TokenType::Assign) => {
            let whole = assignment(tokens, pos, expression);
            match whole.result {
                Err(error) => fail(error, whole.end),
                Ok(node) => suffixes(tokens, resume(tokens, pos + 1, whole.end), node),
            }
        },
        Some(TokenType::LeftParen) => {
            let whole = call(tokens, pos, expression);
            match whole.result {
                Err(error) => fail(error, whole.end),
                Ok(node) => suffixes(tokens, resume(tokens, pos + 1, whole.end), node),
            }
        },
        _ => done(expression, pos),
    }
}

/// The arguments of a call from `pos` on, after those in `found`: postfix expressions
/// separated by `,`, up to a `)` or the end of the input, neither of which is consumed.
pub open spec fn arguments(tokens: Seq<TokenView>, pos: int, found: Seq<AstView>) -> Parsed<
    Seq<AstView>,
>
    decreases tokens.len() - pos, 3int,
{
    match kind_at(tokens, pos) {
        None => done(found, pos),
        Some(TokenType::RightParen) => done(found, pos),
        Some(_) => {
            let argument = postfix(tokens, pos);
            match argument.result {
                Err(error) => fail(error, argument.end),
                Ok(value) => {
                    proof {
                        lemma_newlines_end_bounds(tokens, resume(tokens, pos + 1, argument.end));
                    }
                    let after = newlines_end(tokens, resume(tokens, pos + 1, argument.end));
                    if kind_at(tokens, after) == Some(TokenType::Comma) {
                        arguments(tokens, after + 1, found.push(value))
                    } else {
                        done(found.push(value), after)
                    }
                },
            }
        },
    }
}

/// A declaration at `pos`: `var`, a name, `=` and the initializer.
pub open spec fn declaration(tokens: Seq<TokenView>, pos: int) -> Parsed<AstView> {
    let keyword = expect(tokens, pos, TokenType::Var);
    match keyword.result {
        Err(error) => fail(error, keyword.end),
        Ok(_) => {
            let name = expect(tokens, newlines_end(tokens, pos + 1), TokenType::Name);
            match name.result {
                Err(error) => fail(error, name.end),
                Ok(name_token) => {
                    let sign = expect_assign(tokens, name.end);
                    match sign.result {
                        Err(error) => fail(error, sign.end),
                        Ok(_) => {
                            let value = postfix(tokens, sign.end);
                            match value.result {
                                Err(error) => fail(error, value.end),
                                Ok(initializer) => done(
                                    AstView::Declaration(name_token, Box::new(initializer)),
                                    value.end,
                                ),
                            }
                        },
                    }
                },
            }
        },
    }
}

/// A block at `pos`: `{`, any line breaks, statements, and `}`.
pub open spec fn block(tokens: Seq<TokenView>, pos: int) -> Parsed<AstView>
    decreases tokens.len() - pos, 1int,
{
    let open = expect(tokens, pos, TokenType::LeftCurly);
    match open.result {
        Err(error) => fail(error, open.end),
        Ok(_) => {
            proof {
                lemma_newlines_end_bounds(tokens, pos + 1);
            }
            let body = statements(tokens, newlines_end(tokens, pos + 1), Seq::empty());
            match body.result {
                Err(error) => fail(error, body.end),
                Ok(nodes) => {
                    let close = expect(tokens, body.end, TokenType::RightCurly);
                    match close.result {
                        Err(error) => fail(error, close.end),
                        Ok(_) => done(AstView::Block(nodes), close.end),
                    }
                },
            }
        },
    }
}

/// A conditional at `pos`: `if`, the condition, and one statement with its terminator.
pub open spec fn conditional(tokens: Seq<TokenView>, pos: int) -> Parsed<AstView>
    decreases tokens.len() - pos, 1int,
{
    let keyword = expect(tokens, pos, TokenType::If);
    match keyword.result {
        Err(error) => fail(error, keyword.end),
        Ok(_) => {
            let condition = postfix(tokens, pos + 1);
            match condition.result {
                Err(error) => fail(error, condition.end),
                Ok(test) => {
                    proof {
                        lemma_postfix_bounds(tokens, pos + 1);
                    }
                    let body = statement(tokens, condition.end);
                    match body.result {
                        Err(error) => fail(error, body.end),
                        Ok(node) => done(AstView::If(Box::new(test), Box::new(node)), body.end),
                    }
                },
            }
        },
    }
}

/// A statement at `pos`, after any line breaks, without its terminator: a declaration,
/// a block, a conditional, a debug-print or a postfix expression.
pub open spec fn statement_without_terminator(tokens: Seq<TokenView>, pos: int) -> Parsed<AstView>
    decreases tokens.len() - pos, 2int,
{
    let start = newlines_end(tokens, pos);
    proof {
        lemma_newlines_end_bounds(tokens, pos);
    }
    match kind_at(tokens, start) {
        None => fail(ErrorView::SuddenEndOfFile, start),
        Some(TokenType::Var) => declaration(tokens, start),
        Some(TokenType::LeftCurly) => block(tokens, start),
        Some(TokenType::If) => conditional(tokens, start),
        Some(TokenType::DebugPrint) => {
            let value = postfix(tokens, start + 1);
            match value.result {
                Err(error) => fail(error, value.end),
                Ok(expression) => done(AstView::DebugPrint(Box::new(expression)), value.end),
            }
        },
        Some(_) => postfix(tokens, start),
    }
}

/// A statement at `pos` with its terminator.
pub open spec fn statement(tokens: Seq<TokenView>, pos: int) -> Parsed<AstView>
    decreases tokens.len() - pos, 3int,
{
    let body = statement_without_terminator(tokens, pos);
    match body.result {
        Err(error) => fail(error, body.end),
        Ok(node) => {
            let end = terminator(tokens, body.end);
            match end.result {
                Err(error) => fail(error, end.end),
                Ok(_) => done(node, end.end),
            }
        },
    }
}

/// The statements from `pos` on, after those in `found`, up to a `}` or the end of the
/// input, neither of which is consumed.
pub open spec fn statements(tokens: Seq<TokenView>, pos: int, found: Seq<AstView>) -> Parsed<
    Seq<AstView>,
>
    decreases tokens.len() - pos, 4int,
{
    match kind_at(tokens, pos) {
        None => done(found, pos),
        Some(TokenType::RightCurly) => done(found, pos),
        Some(_) => {
            let next = statement(tokens, pos);
            match next.result {
                Err(error) => fail(error, next.end),
                Ok(node) => statements(
                    tokens,
                    resume(tokens, pos + 1, next.end),
                    found.push(node),
                ),
            }
        },
    }
}

/// The statements from `pos` to the end of the input, after those in `found`.
pub open spec fn program(tokens: Seq<TokenView>, pos: int, found: Seq<AstView>) -> Parsed<
    Seq<AstView>,
>
    decreases tokens.len() - pos,
{
    if 0 <= pos < tokens.len() {
        let next = statement(tokens, pos);
        match next.result {
            Err(error) => fail(error, next.end),
            Ok(node) => {
                proof {
                    lemma_statement_bounds(tokens, pos);
                }
                program(tokens, next.end, found.push(node))
            },
        }
    } else {
        done(found, pos)
    }
}

/// The contents of a block or of a whole input at `pos`: after any line breaks, nothing
/// if a `}` stands there, which is consumed; else the statements up to a `}` or the end
/// of the input.
pub open spec fn statement_list(tokens: Seq<TokenView>, pos: int) -> Parsed<Seq<AstView>> {
    let start = newlines_end(tokens, pos);
    if kind_at(tokens, start) == Some(TokenType::RightCurly) {
        done(Seq::empty(), start + 1)
    } else {
        statements(tokens, start, Seq::empty())
    }
}

/// A run of line breaks ends between its start and the end of the tokens.
pub proof fn lemma_newlines_end_bounds(tokens: Seq<TokenView>, pos: int)
    ensures
        pos <= newlines_end(tokens, pos),
        pos <= tokens.len() ==> newlines_end(tokens, pos) <= tokens.len(),
        kind_at(tokens, newlines_end(tokens, pos)) != Some(TokenType::NewLine),
    decreases tokens.len() - pos,
{
    if kind_at(tokens, pos) == Some(TokenType::NewLine) {
        lemma_newlines_end_bounds(tokens, pos + 1);
    }
}

/// Whether a construct parsed from `pos` stopped within the tokens and not before `pos`.
pub open spec fn stops_within<T>(tokens: Seq<TokenView>, pos: int, parsed: Parsed<T>) -> bool {
    pos <= parsed.end <= tokens.len()
}

/// Whether a construct parsed from `pos` stopped within the tokens, and after at least
/// one token if it was parsed successfully.
pub open spec fn advances<T>(tokens: Seq<TokenView>, pos: int, parsed: Parsed<T>) -> bool {
    &&& stops_within(tokens, pos, parsed)
    &&& parsed.result is Ok ==> pos < parsed.end
}

/// A postfix expression consumes at least one token and stops within the tokens.
pub proof fn lemma_postfix_bounds(tokens: Seq<TokenView>, pos: int)
    requires
        0 <= pos <= tokens.len(),
    ensures
        advances(tokens, pos, postfix(tokens, pos)),
    decreases tokens.len() - pos, 2int,
{
    lemma_newlines_end_bounds(tokens, pos);
    let first = factor(tokens, pos);
    if let Ok(expression) = first.result {
        lemma_suffixes_bounds(tokens, first.end, expression);
    }
}

/// An assignment consumes at least one token and stops within the tokens.
pub proof fn lemma_assignment_bounds(tokens: Seq<TokenView>, pos: int, target: AstView)
    requires
        0 <= pos <= tokens.len(),
    ensures
        advances(tokens, pos, assignment(tokens, pos, target)),
    decreases tokens.len() - pos, 0int,
{
    if expect_assign(tokens, pos).result is Ok {
        lemma_postfix_bounds(tokens, pos + 1);
    }
}

/// A call consumes at least one token and stops within the tokens.
pub proof fn lemma_call_bounds(tokens: Seq<TokenView>, pos: int, callee: AstView)
    requires
        0 <= pos <= tokens.len(),
    ensures
        advances(tokens, pos, call(tokens, pos, callee)),
    decreases tokens.len() - pos, 0int,
{
    if expect(tokens, pos, TokenType::LeftParen).result is Ok {
        lemma_newlines_end_bounds(tokens, pos + 1);
        lemma_arguments_bounds(tokens, newlines_end(tokens, pos + 1), Seq::empty());
    }
}

/// The suffixes of an expression stop within the tokens.
pub proof fn lemma_suffixes_bounds(tokens: Seq<TokenView>, pos: int, expression: AstView)
    requires
        0 <= pos <= tokens.len(),
    ensures
        stops_within(tokens, pos, suffixes(tokens, pos, expression)),
    decreases tokens.len() - pos, 1int,
{
    match kind_at(tokens, pos) {
        Some(TokenType::Assign) => {
            lemma_assignment_bounds(tokens, pos, expression);
            let whole = assignment(tokens, pos, expression);
            if let Ok(node) = whole.result {
                lemma_suffixes_bounds(tokens, whole.end, node);
            }
        },
        Some(TokenType::LeftParen) => {
            lemma_call_bounds(tokens, pos, expression);
            let whole = call(tokens, pos, expression);
            if let Ok(node) = whole.result {
                lemma_suffixes_bounds(tokens, whole.end, node);
            }
        },
        _ => {},
    }
}

/// The arguments of a call stop within the tokens.
pub proof fn lemma_arguments_bounds(tokens: Seq<TokenView>, pos: int, found: Seq<AstView>)
    requires
        0 <= pos <= tokens.len(),
    ensures
        stops_within(tokens, pos, arguments(tokens, pos, found)),
    decreases tokens.len() - pos, 3int,
{
    match kind_at(tokens, pos) {
        None => {},
        Some(TokenType::RightParen) => {},
        Some(_) => {
            lemma_postfix_bounds(tokens, pos);
            let argument = postfix(tokens, pos);
            if let Ok(value) = argument.result {
                lemma_newlines_end_bounds(tokens, argument.end);
                let after = newlines_end(tokens, argument.end);
                if kind_at(tokens, after) == Some(TokenType::Comma) {
                    lemma_arguments_bounds(tokens, after + 1, found.push(value));
                }
            }
        },
    }
}

/// A statement without its terminator consumes at least one token and stops within the
/// tokens.
pub proof fn lemma_statement_without_terminator_bounds(tokens: Seq<TokenView>, pos: int)
    requires
        0 <= pos <= tokens.len(),
    ensures
        advances(tokens, pos, statement_without_terminator(tokens, pos)),
    decreases tokens.len() - pos, 2int,
{
    lemma_newlines_end_bounds(tokens, pos);
    let start = newlines_end(tokens, pos);
    match kind_at(tokens, start) {
        None => {},
        Some(TokenType::Var) => {
            lemma_newlines_end_bounds(tokens, start + 1);
            let name = expect(tokens, newlines_end(tokens, start + 1), TokenType::Name);
            if name.result is Ok && expect_assign(tokens, name.end).result is Ok {
                lemma_postfix_bounds(tokens, name.end + 1);
            }
        },
        Some(TokenType::LeftCurly) => {
            lemma_newlines_end_bounds(tokens, start + 1);
            lemma_statements_bounds(tokens, newlines_end(tokens, start + 1), Seq::empty());
        },
        Some(TokenType::If) => {
            lemma_postfix_bounds(tokens, start + 1);
            let condition = postfix(tokens, start + 1);
            if condition.result is Ok {
                lemma_statement_bounds(tokens, condition.end);
            }
        },
        Some(TokenType::DebugPrint) => {
            lemma_postfix_bounds(tokens, start + 1);
        },
        Some(_) => {
            lemma_postfix_bounds(tokens, start);
        },
    }
}

/// A statement with its terminator consumes at least one token and stops within the
/// tokens.
pub proof fn lemma_statement_bounds(tokens: Seq<TokenView>, pos: int)
    requires
        0 <= pos <= tokens.len(),
    ensures
        advances(tokens, pos, statement(tokens, pos)),
    decreases tokens.len() - pos, 3int,
{
    lemma_statement_without_terminator_bounds(tokens, pos);
    let body = statement_without_terminator(tokens, pos);
    if body.result is Ok {
        lemma_newlines_end_bounds(tokens, body.end + 1);
    }
}

/// A list of statements stops within the tokens.
pub proof fn lemma_statements_bounds(tokens: Seq<TokenView>, pos: int, found: Seq<AstView>)
    requires
        0 <= pos <= tokens.len(),
    ensures
        stops_within(tokens, pos, statements(tokens, pos, found)),
    decreases tokens.len() - pos, 4int,
{
    match kind_at(tokens, pos) {
        None => {},
        Some(TokenType::RightCurly) => {},
        Some(_) => {
            lemma_statement_bounds(tokens, pos);
            let next = statement(tokens, pos);
            if let Ok(node) = next.result {
                lemma_statements_bounds(tokens, next.end, found.push(node));
            }
        },
    }
}

/// Whether `token` is a literal: a number, a truth value or a text.
pub open spec fn is_literal(token: TokenView) -> bool {
    token.token_type == TokenType::Number || token.token_type == TokenType::Truth
        || token.token_type == TokenType::Text
}

/// The four tokens `var`, a name, `=` and a literal are one statement: the declaration
/// of the name with the literal as its initializer.
pub proof fn lemma_declaration_parses(tokens: Seq<TokenView>)
    requires
        tokens.len() == 4,
        tokens[0].token_type == TokenType::Var,
        tokens[1].token_type == TokenType::Name,
        tokens[2].token_type == TokenType::Assign,
        is_literal(tokens[3]),
    ensures
        statement_list(tokens, 0) == done(
            seq![AstView::Declaration(tokens[1], Box::new(leaf(tokens[3])->0))],
            4,
        ),
{
    reveal_with_fuel(newlines_end, 2);
    let literal = leaf(tokens[3])->0;
    assert(factor(tokens, 3) == done(literal, 4));
    assert(suffixes(tokens, 4, literal) == done(literal, 4));
    assert(postfix(tokens, 3) == done(literal, 4));
    let node = AstView::Declaration(tokens[1], Box::new(literal));
    assert(declaration(tokens, 0) == done(node, 4));
    assert(statement_without_terminator(tokens, 0) == done(node, 4));
    assert(statement(tokens, 0) == done(node, 4));
    assert(statements(tokens, 4, seq![node]) == done(seq![node], 4));
    assert(Seq::<AstView>::empty().push(node) =~= seq![node]);
    assert(statements(tokens, 0, Seq::empty()) == statements(tokens, 4, seq![node]));
}

/// A single name is one statement: a reference to the variable of that name.
pub proof fn lemma_reference_parses(tokens: Seq<TokenView>)
    requires
        tokens.len() == 1,
        tokens[0].token_type == TokenType::Name,
    ensures
        statement_list(tokens, 0) == done(seq![AstView::Variable(tokens[0])], 1),
{
    reveal_with_fuel(newlines_end, 2);
    let node = AstView::Variable(tokens[0]);
    assert(factor(tokens, 0) == done(node, 1));
    assert(suffixes(tokens, 1, node) == done(node, 1));
    assert(postfix(tokens, 0) == done(node, 1));
    assert(statement_without_terminator(tokens, 0) == done(node, 1));
    assert(statement(tokens, 0) == done(node, 1));
    assert(statements(tokens, 1, seq![node]) == done(seq![node], 1));
    assert(Seq::<AstView>::empty().push(node) =~= seq![node]);
    assert(statements(tokens, 0, Seq::empty()) == statements(tokens, 1, seq![node]));
}

/// The mathematical values of a list of nodes.
pub open spec fn node_views(nodes: Seq<Node>) -> Seq<AstView> {
    Seq::new(nodes.len(), |i: int| if 0 <= i < nodes.len() {
        nodes[i].model()
    } else {
        arbitrary()
    })
}

/// The mathematical value of what a parsing function returns for one construct.
pub open spec fn outcome(result: Result<Node, Error>) -> Result<AstView, ErrorView> {
    match result {
        Ok(node) => Ok(node@),
        Err(error) => Err(error@),
    }
}

/// The mathematical value of what a parsing function returns for a list of statements.
pub open spec fn list_outcome(result: Result<Vec<Node>, Error>) -> Result<Seq<AstView>, ErrorView> {
    match result {
        Ok(nodes) => Ok(node_views(nodes@)),
        Err(error) => Err(error@),
    }
}

/// A recursive-descent parser over a token sequence.
pub struct Parser {
    tokens: Vec<Token>,
    position: usize,
}

/// The mathematical value of a [`Parser`]: its tokens and how many of them it has consumed.
pub struct ParserView {
    pub tokens: Seq<TokenView>,
    pub position: nat,
}

impl View for Parser {
    type V = ParserView;

    closed spec fn view(&self) -> ParserView {
        ParserView { tokens: token_views(self.tokens@), position: self.position as nat }
    }
}

impl Parser {
    #[verifier::type_invariant]
    spec fn within(&self) -> bool {
        self.position <= self.tokens@.len()
    }

    /// Whether the parser went from `before` to `self` by parsing what `parsed` describes.
    pub open spec fn follows(&self, before: ParserView, parsed_end: int) -> bool {
        &&& self@.tokens == before.tokens
        &&& self@.position == parsed_end
        &&& before.position <= self@.position <= self@.tokens.len()
    }

    /// A parser at the start of `tokens`.
    pub fn new(tokens: Vec<Token>) -> (parser: Parser)
        ensures
            parser@ == (ParserView { tokens: token_views(tokens@), position: 0 }),
    {
        Parser { tokens, position: 0 }
    }

    /// The kind of the next token, if there is one.
    fn peek_kind(&self) -> (kind: Option<TokenType>)
        ensures
            kind == kind_at(self@.tokens, self@.position as int),
            self@.position <= self@.tokens.len(),
    {
        proof {
            use_type_invariant(self);
        }
        if self.position < self.tokens.len() {
            Some(self.tokens[self.position].token_type)
        } else {
            None
        }
    }

    /// A copy of the next token, if there is one.
    fn peek(&self) -> (token: Option<Token>)
        ensures
            self@.position <= self@.tokens.len(),
            self@.position == self@.tokens.len() ==> token is None,
            self@.position < self@.tokens.len() ==> (token matches Some(t) && t@
                == self@.tokens[self@.position as int]),
    {
        proof {
            use_type_invariant(self);
        }
        if self.position < self.tokens.len() {
            Some(self.tokens[self.position].clone())
        } else {
            None
        }
    }

    /// Steps over the next token.
    fn skip(&mut self)
        requires
            old(self)@.position < old(self)@.tokens.len(),
        ensures
            final(self)@ == (ParserView { position: old(self)@.position + 1, ..old(self)@ }),
    {
        let length = self.tokens.len();
        self.position = self.position + 1;
    }

    /// Takes the next token if it is of kind `kind`.
    fn consume(&mut self, kind: TokenType) -> (token: Result<Token, Error>)
        ensures
            final(self).follows(
                old(self)@,
                expect(old(self)@.tokens, old(self)@.position as int, kind).end,
            ),
            match expect(old(self)@.tokens, old(self)@.position as int, kind).result {
                Ok(view) => token matches Ok(t) && t@ == view,
                Err(view) => token matches Err(e) && e@ == view,
            },
    {
        match self.peek() {
            None => Err(Error::SuddenEndOfFile),
            Some(token) => {
                if token.token_type == kind {
                    self.skip();
                    Ok(token)
                } else {
                    Err(Error::UnexpectedToken(kind, token))
                }
            },
        }
    }

    /// Takes the `=` of an assignment or a declaration.
    fn consume_assign(&mut self) -> (token: Result<Token, Error>)
        ensures
            final(self).follows(
                old(self)@,
                expect_assign(old(self)@.tokens, old(self)@.position as int).end,
            ),
            match expect_assign(old(self)@.tokens, old(self)@.position as int).result {
                Ok(view) => token matches Ok(t) && t@ == view,
                Err(view) => token matches Err(e) && e@ == view,
            },
    {
        match self.peek() {
            None => Err(Error::ExpectedAssignment(None)),
            Some(token) => {
                if token.token_type == TokenType::Assign {
                    self.skip();
                    Ok(token)
                } else {
                    Err(Error::ExpectedAssignment(Some(token)))
                }
            },
        }
    }

    /// Whether the next token is of kind `kind`.
    fn next_is(&self, kind: TokenType) -> (yes: bool)
        ensures
            yes == (kind_at(self@.tokens, self@.position as int) == Some(kind)),
    {
        match self.peek_kind() {
            Some(found) => found == kind,
            None => false,
        }
    }

    /// Steps over a run of line breaks.
    fn ignore_newline(&mut self)
        ensures
            final(self).follows(
                old(self)@,
                newlines_end(old(self)@.tokens, old(self)@.position as int),
            ),
    {
        proof {
            use_type_invariant(&*self);
        }
        while self.next_is(TokenType::NewLine)
            invariant
                self@.tokens == old(self)@.tokens,
                old(self)@.position <= self@.position <= self@.tokens.len(),
                newlines_end(self@.tokens, self@.position as int) == newlines_end(
                    old(self)@.tokens,
                    old(self)@.position as int,
                ),
            decreases self@.tokens.len() - self@.position,
        {
            self.skip();
        }
    }

    /// Parses a factor: a literal or a variable.
    fn parse_factor(&mut self) -> (result: Result<Node, Error>)
        ensures
            final(self).follows(
                old(self)@,
                factor(old(self)@.tokens, old(self)@.position as int).end,
            ),
            outcome(result) == factor(old(self)@.tokens, old(self)@.position as int).result,
            result is Ok ==> final(self)@.position > old(self)@.position,
    {
        self.ignore_newline();
        match self.peek() {
            None => Err(Error::SuddenEndOfFile),
            Some(token) => {
                match token.token_type {
                    TokenType::Number => {
                        self.skip();
                        Ok(Box::new(Ast::Number(token)))
                    },
                    TokenType::Truth => {
                        self.skip();
                        Ok(Box::new(Ast::Truth(token)))
                    },
                    TokenType::Text => {
                        self.skip();
                        Ok(Box::new(Ast::Text(token)))
                    },
                    TokenType::Name => {
                        self.skip();
                        Ok(Box::new(Ast::Variable(token)))
                    },
                    _ => Err(Error::ExpectedExpression(token)),
                }
            },
        }
    }

    /// Checks the terminator of a statement and steps over it.
    fn check_statement_terminator(&mut self) -> (result: Result<(), Error>)
        ensures
            final(self).follows(
                old(self)@,
                terminator(old(self)@.tokens, old(self)@.position as int).end,
            ),
            match terminator(old(self)@.tokens, old(self)@.position as int).result {
                Ok(_) => result is Ok,
                Err(view) => result matches Err(e) && e@ == view,
            },
    {
        match self.peek() {
            None => Ok(()),
            Some(token) => {
                match token.token_type {
                    TokenType::RightCurly => Ok(()),
                    TokenType::SemiColon => {
                        self.skip();
                        self.ignore_newline();
                        Ok(())
                    },
                    TokenType::NewLine => {
                        self.skip();
                        self.ignore_newline();
                        Ok(())
                    },
                    _ => Err(Error::UnexpectedToken(TokenType::NewLine, token)),
                }
            },
        }
    }

    /// Parses an assignment to `target`, whose `=` comes next.
    fn parse_assignment(&mut self, target: Node) -> (result: Result<Node, Error>)
        ensures
            final(self).follows(
                old(self)@,
                assignment(old(self)@.tokens, old(self)@.position as int, target@).end,
            ),
            outcome(result) == assignment(
                old(self)@.tokens,
                old(self)@.position as int,
                target@,
            ).result,
            result is Ok ==> final(self)@.position > old(self)@.position,
        decreases old(self)@.tokens.len() - old(self)@.position, 0int,
    {
        match self.consume_assign() {
            Err(error) => Err(error),
            Ok(_) => match self.parse_postfix() {
                Err(error) => Err(error),
                Ok(value) => Ok(Box::new(Ast::Assignment(target, value))),
            },
        }
    }

    /// Parses a call of `callee`, whose `(` comes next.
    fn parse_function_call(&mut self, callee: Node) -> (result: Result<Node, Error>)
        ensures
            final(self).follows(
                old(self)@,
                call(old(self)@.tokens, old(self)@.position as int, callee@).end,
            ),
            outcome(result) == call(old(self)@.tokens, old(self)@.position as int, callee@).result,
            result is Ok ==> final(self)@.position > old(self)@.position,
        decreases old(self)@.tokens.len() - old(self)@.position, 0int,
    {
        match self.consume(TokenType::LeftParen) {
            Err(error) => {
                return Err(error);
            },
            Ok(_) => {},
        }
        self.ignore_newline();
        let ghost tokens = self@.tokens;
        let ghost start = self@.position;
        let mut args: Vec<Node> = Vec::new();
        proof {
            assert(node_views(args@) =~= Seq::<AstView>::empty());
        }
        loop
            invariant_except_break
                arguments(tokens, self@.position as int, node_views(args@)) == arguments(
                    tokens,
                    start as int,
                    Seq::empty(),
                ),
            invariant
                self@.tokens == tokens,
                tokens == old(self)@.tokens,
                old(self)@.position < start <= self@.position <= tokens.len(),
                kind_at(tokens, old(self)@.position as int) == Some(TokenType::LeftParen),
                start == newlines_end(tokens, old(self)@.position as int + 1),
            ensures
                self@.tokens == tokens,
                start <= self@.position <= tokens.len(),
                arguments(tokens, start as int, Seq::empty()) == done(
                    node_views(args@),
                    self@.position as int,
                ),
            decreases tokens.len() - self@.position,
        {
            match self.peek_kind() {
                None => {
                    break ;
                },
                Some(TokenType::RightParen) => {
                    break ;
                },
                Some(_) => {},
            }
            let ghost before = node_views(args@);
            let ghost here = self@.position;
            match self.parse_postfix() {
                Err(error) => {
                    return Err(error);
                },
                Ok(argument) => {
                    args.push(argument);
                    proof {
                        assert(node_views(args@) =~= before.push(argument@));
                    }
                },
            }
            self.ignore_newline();
            if self.next_is(TokenType::Comma) {
                self.skip();
            } else {
                break ;
            }
        }
        match self.consume(TokenType::RightParen) {
            Err(error) => Err(error),
            Ok(_) => {
                proof {
                    assert(Ast::FunctionCall(callee, args)@ == AstView::FunctionCall(
                        Box::new(callee@),
                        node_views(args@),
                    )) by {
                        assert(node_views(args@) =~= Ast::FunctionCall(
                            callee,
                            args,
                        )@->FunctionCall_1);
                    }
                }
                Ok(Box::new(Ast::FunctionCall(callee, args)))
            },
        }
    }

    /// Parses a postfix expression: a factor and the suffixes after it.
    fn parse_postfix(&mut self) -> (result: Result<Node, Error>)
        ensures
            final(self).follows(
                old(self)@,
                postfix(old(self)@.tokens, old(self)@.position as int).end,
            ),
            outcome(result) == postfix(old(self)@.tokens, old(self)@.position as int).result,
            result is Ok ==> final(self)@.position > old(self)@.position,
        decreases old(self)@.tokens.len() - old(self)@.position, 2int,
    {
        let mut expression = match self.parse_factor() {
            Err(error) => {
                return Err(error);
            },
            Ok(node) => node,
        };
        let ghost tokens = self@.tokens;
        let ghost whole = postfix(old(self)@.tokens, old(self)@.position as int);
        loop
            invariant_except_break
                suffixes(tokens, self@.position as int, expression@) == whole,
            invariant
                self@.tokens == tokens,
                tokens == old(self)@.tokens,
                old(self)@.position < self@.position <= tokens.len(),
                whole == postfix(tokens, old(self)@.position as int),
            ensures
                self@.tokens == tokens,
                old(self)@.position < self@.position <= tokens.len(),
                whole == done(expression@, self@.position as int),
            decreases tokens.len() - self@.position,
        {
            match self.peek_kind() {
                Some(TokenType::Assign) => {
                    match self.parse_assignment(expression) {
                        Err(error) => {
                            return Err(error);
                        },
                        Ok(node) => {
                            expression = node;
                        },
                    }
                },
                Some(TokenType::LeftParen) => {
                    match self.parse_function_call(expression) {
                        Err(error) => {
                            return Err(error);
                        },
                        Ok(node) => {
                            expression = node;
                        },
                    }
                },
                _ => {
                    break ;
                },
            }
        }
        Ok(expression)
    }

    /// Parses a declaration: `var`, a name, `=` and the initializer.
    fn parse_declaration(&mut self) -> (result: Result<Node, Error>)
        ensures
            final(self).follows(
                old(self)@,
                declaration(old(self)@.tokens, old(self)@.position as int).end,
            ),
            outcome(result) == declaration(old(self)@.tokens, old(self)@.position as int).result,
            result is Ok ==> final(self)@.position > old(self)@.position,
    {
        match self.consume(TokenType::Var) {
            Err(error) => {
                return Err(error);
            },
            Ok(_) => {},
        }
        self.ignore_newline();
        let name = match self.consume(TokenType::Name) {
            Err(error) => {
                return Err(error);
            },
            Ok(token) => token,
        };
        match self.consume_assign() {
            Err(error) => {
                return Err(error);
            },
            Ok(_) => {},
        }
        match self.parse_postfix() {
            Err(error) => Err(error),
            Ok(value) => Ok(Box::new(Ast::Declaration(name, value))),
        }
    }

    /// Parses a block: `{`, any line breaks, statements, and `}`.
    fn parse_block(&mut self) -> (result: Result<Node, Error>)
        ensures
            final(self).follows(
                old(self)@,
                block(old(self)@.tokens, old(self)@.position as int).end,
            ),
            outcome(result) == block(old(self)@.tokens, old(self)@.position as int).result,
            result is Ok ==> final(self)@.position > old(self)@.position,
        decreases old(self)@.tokens.len() - old(self)@.position, 1int,
    {
        match self.consume(TokenType::LeftCurly) {
            Err(error) => {
                return Err(error);
            },
            Ok(_) => {},
        }
        self.ignore_newline();
        let ghost tokens = self@.tokens;
        let ghost start = self@.position;
        let mut nodes: Vec<Node> = Vec::new();
        proof {
            assert(node_views(nodes@) =~= Seq::<AstView>::empty());
        }
        loop
            invariant_except_break
                statements(tokens, self@.position as int, node_views(nodes@)) == statements(
                    tokens,
                    start as int,
                    Seq::empty(),
                ),
            invariant
                self@.tokens == tokens,
                tokens == old(self)@.tokens,
                old(self)@.position < start <= self@.position <= tokens.len(),
                kind_at(tokens, old(self)@.position as int) == Some(TokenType::LeftCurly),
                start == newlines_end(tokens, old(self)@.position as int + 1),
            ensures
                statements(tokens, start as int, Seq::empty()) == done(
                    node_views(nodes@),
                    self@.position as int,
                ),
            decreases tokens.len() - self@.position,
        {
            match self.peek_kind() {
                None => {
                    break ;
                },
                Some(TokenType::RightCurly) => {
                    break ;
                },
                Some(_) => {},
            }
            let ghost before = node_views(nodes@);
            match self.parse_statement() {
                Err(error) => {
                    return Err(error);
                },
                Ok(node) => {
                    nodes.push(node);
                    proof {
                        assert(node_views(nodes@) =~= before.push(node@));
                    }
                },
            }
        }
        match self.consume(TokenType::RightCurly) {
            Err(error) => Err(error),
            Ok(_) => {
                proof {
                    assert(node_views(nodes@) =~= Ast::Block(nodes)@->Block_0);
                }
                Ok(Box::new(Ast::Block(nodes)))
            },
        }
    }

    /// Parses a conditional: `if`, the condition, and one statement with its terminator.
    fn parse_if(&mut self) -> (result: Result<Node, Error>)
        ensures
            final(self).follows(
                old(self)@,
                conditional(old(self)@.tokens, old(self)@.position as int).end,
            ),
            outcome(result) == conditional(old(self)@.tokens, old(self)@.position as int).result,
            result is Ok ==> final(self)@.position > old(self)@.position,
        decreases old(self)@.tokens.len() - old(self)@.position, 1int,
    {
        match self.consume(TokenType::If) {
            Err(error) => {
                return Err(error);
            },
            Ok(_) => {},
        }
        let condition = match self.parse_postfix() {
            Err(error) => {
                return Err(error);
            },
            Ok(node) => node,
        };
        match self.parse_statement() {
            Err(error) => Err(error),
            Ok(body) => Ok(Box::new(Ast::If(condition, body))),
        }
    }

    /// Parses one statement, after any line breaks, without its terminator.
    pub fn parse_statement_without_terminator(&mut self) -> (result: Result<Node, Error>)
        ensures
            final(self).follows(
                old(self)@,
                statement_without_terminator(old(self)@.tokens, old(self)@.position as int).end,
            ),
            outcome(result) == statement_without_terminator(
                old(self)@.tokens,
                old(self)@.position as int,
            ).result,
            result is Ok ==> final(self)@.position > old(self)@.position,
        decreases old(self)@.tokens.len() - old(self)@.position, 2int,
    {
        self.ignore_newline();
        match self.peek_kind() {
            None => Err(Error::SuddenEndOfFile),
            Some(TokenType::Var) => self.parse_declaration(),
            Some(TokenType::LeftCurly) => self.parse_block(),
            Some(TokenType::If) => self.parse_if(),
            Some(TokenType::DebugPrint) => {
                self.skip();
                match self.parse_postfix() {
                    Err(error) => Err(error),
                    Ok(value) => Ok(Box::new(Ast::DebugPrint(value))),
                }
            },
            Some(_) => self.parse_postfix(),
        }
    }

    /// Parses one statement with its terminator.
    pub fn parse_statement(&mut self) -> (result: Result<Node, Error>)
        ensures
            final(self).follows(
                old(self)@,
                statement(old(self)@.tokens, old(self)@.position as int).end,
            ),
            outcome(result) == statement(old(self)@.tokens, old(self)@.position as int).result,
            result is Ok ==> final(self)@.position > old(self)@.position,
        decreases old(self)@.tokens.len() - old(self)@.position, 3int,
    {
        let node = match self.parse_statement_without_terminator() {
            Err(error) => {
                return Err(error);
            },
            Ok(node) => node,
        };
        match self.check_statement_terminator() {
            Err(error) => Err(error),
            Ok(_) => Ok(node),
        }
    }

    /// Parses the contents of a block or of a whole input: after any line breaks, nothing
    /// if a `}` comes next, which is consumed; else the statements up to a `}` or the end
    /// of the input.
    pub fn statement_list(&mut self) -> (result: Result<Vec<Node>, Error>)
        ensures
            final(self).follows(
                old(self)@,
                statement_list(old(self)@.tokens, old(self)@.position as int).end,
            ),
            list_outcome(result) == statement_list(
                old(self)@.tokens,
                old(self)@.position as int,
            ).result,
    {
        let mut nodes: Vec<Node> = Vec::new();
        proof {
            assert(node_views(nodes@) =~= Seq::<AstView>::empty());
        }
        self.ignore_newline();
        if self.next_is(TokenType::RightCurly) {
            self.skip();
            return Ok(nodes);
        }
        let ghost tokens = self@.tokens;
        let ghost start = self@.position;
        loop
            invariant_except_break
                statements(tokens, self@.position as int, node_views(nodes@)) == statements(
                    tokens,
                    start as int,
                    Seq::empty(),
                ),
            invariant
                self@.tokens == tokens,
                tokens == old(self)@.tokens,
                old(self)@.position <= start <= self@.position <= tokens.len(),
                start == newlines_end(tokens, old(self)@.position as int),
                kind_at(tokens, start as int) != Some(TokenType::RightCurly),
            ensures
                statements(tokens, start as int, Seq::empty()) == done(
                    node_views(nodes@),
                    self@.position as int,
                ),
            decreases tokens.len() - self@.position,
        {
            match self.peek_kind() {
                None => {
                    break ;
                },
                Some(TokenType::RightCurly) => {
                    break ;
                },
                Some(_) => {},
            }
            let ghost before = node_views(nodes@);
            match self.parse_statement() {
                Err(error) => {
                    return Err(error);
                },
                Ok(node) => {
                    nodes.push(node);
                    proof {
                        assert(node_views(nodes@) =~= before.push(node@));
                    }
                },
            }
        }
        Ok(nodes)
    }

    /// Parses all remaining tokens as a sequence of statements, and returns them as one
    /// block.
    pub fn parse(&mut self) -> (result: Result<Node, Error>)
        ensures
            final(self).follows(
                old(self)@,
                program(old(self)@.tokens, old(self)@.position as int, Seq::empty()).end,
            ),
            match program(old(self)@.tokens, old(self)@.position as int, Seq::empty()).result {
                Ok(nodes) => result matches Ok(node) && node@ == AstView::Block(nodes),
                Err(error) => result matches Err(e) && e@ == error,
            },
    {
        let ghost tokens = self@.tokens;
        let ghost start = self@.position;
        let mut nodes: Vec<Node> = Vec::new();
        proof {
            use_type_invariant(&*self);
            assert(node_views(nodes@) =~= Seq::<AstView>::empty());
        }
        while self.peek_kind().is_some()
            invariant
                self@.tokens == tokens,
                tokens == old(self)@.tokens,
                start == old(self)@.position,
                start <= self@.position <= tokens.len(),
                program(tokens, self@.position as int, node_views(nodes@)) == program(
                    tokens,
                    start as int,
                    Seq::empty(),
                ),
            decreases tokens.len() - self@.position,
        {
            let ghost before = node_views(nodes@);
            match self.parse_statement() {
                Err(error) => {
                    return Err(error);
                },
                Ok(node) => {
                    nodes.push(node);
                    proof {
                        assert(node_views(nodes@) =~= before.push(node@));
                    }
                },
            }
        }
        proof {
            assert(node_views(nodes@) =~= Ast::Block(nodes)@->Block_0);
        }
        Ok(Box::new(Ast::Block(nodes)))
    }
}

/// How a syntax error is described to a reader.
pub open spec fn error_description(error: ErrorView) -> Seq<char> {
    match error {
        ErrorView::SuddenEndOfFile => "Unexpected end of file"@,
        ErrorView::UnexpectedToken(expected, got) => "Expected token of type "@ + kind_name(
            expected,
        ) + " but got "@ + token_description(got),
        ErrorView::ExpectedExpression(got) => "Unexpected token "@ + token_description(got),
        ErrorView::ExpectedAssignment(Some(got)) =>
            "Expected an assignment statement ('=') but got "@ + token_description(got),
        ErrorView::ExpectedAssignment(None) =>
            "Expected an assignment statement ('='): unexpected end of file"@,
    }
}

impl Error {
    /// A description of this error for a reader.
    pub fn description(&self) -> (text: String)
        ensures
            text@ == error_description(self@),
    {
        match self {
            Error::SuddenEndOfFile => "Unexpected end of file".to_owned(),
            Error::UnexpectedToken(expected, got) => {
                let mut text = "Expected token of type ".to_owned();
                text.append(expected.name());
                text.append(" but got ");
                text.append(got.description().as_str());
                text
            },
            Error::ExpectedExpression(got) => {
                let mut text = "Unexpected token ".to_owned();
                text.append(got.description().as_str());
                text
            },
            Error::ExpectedAssignment(Some(got)) => {
                let mut text = "Expected an assignment statement ('=') but got ".to_owned();
                text.append(got.description().as_str());
                text
            },
            Error::ExpectedAssignment(None) =>
                "Expected an assignment statement ('='): unexpected end of file".to_owned(),
        }
    }
}

} // verus!
