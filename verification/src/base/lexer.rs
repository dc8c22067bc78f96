//! Lexical analysis: source text to tokens.

use vstd::prelude::*;

verus! {

/// Whether `c` has the Unicode `Alphabetic` property, as `char::is_alphabetic` reports it.
pub uninterp spec fn alphabetic(c: char) -> bool;

/// Whether `c` belongs to one of the Unicode number categories, as `char::is_numeric`
/// reports it.
pub uninterp spec fn numeric(c: char) -> bool;

/// Whether `c` has the Unicode `White_Space` property, as `char::is_whitespace` reports it.
pub uninterp spec fn whitespace(c: char) -> bool;

/// `char::is_alphabetic`: the answer depends on the character alone; the Unicode table
/// behind it is not spelled out here, only named.
pub assume_specification[ char::is_alphabetic ](c: char) -> (b: bool)
    ensures
        b == alphabetic(c),
;

/// `char::is_numeric`: the answer depends on the character alone and is only named.
pub assume_specification[ char::is_numeric ](c: char) -> (b: bool)
    ensures
        b == numeric(c),
;

/// `char::is_whitespace`: the answer depends on the character alone and is only named.
pub assume_specification[ char::is_whitespace ](c: char) -> (b: bool)
    ensures
        b == whitespace(c),
;

/// `String::push` appends the character to the end of the string.
pub assume_specification[ String::push ](s: &mut String, c: char)
    ensures
        final(s)@ == old(s)@.push(c),
;

/// A character of a source text together with what the lexer needs to know of it: whether
/// it is a letter, a digit, or whitespace.
#[derive(Debug, Clone, Copy, PartialEq, Eq, Structural)]
pub struct Character {
    pub value: char,
    pub alphabetic: bool,
    pub numeric: bool,
    pub whitespace: bool,
}

/// The character `c` with its Unicode classes.
pub open spec fn classified(c: char) -> Character {
    Character {
        value: c,
        alphabetic: alphabetic(c),
        numeric: numeric(c),
        whitespace: whitespace(c),
    }
}

/// The characters of `text`, each with its Unicode classes.
pub open spec fn classified_text(text: Seq<char>) -> Seq<Character> {
    text.map_values(|c: char| classified(c))
}

/// The characters of `code` from `start` up to `end`, without their classes.
pub open spec fn plain_text(code: Seq<Character>, start: int, end: int) -> Seq<char> {
    code.subrange(start, end).map_values(|c: Character| c.value)
}

/// The character `c` with its Unicode classes.
pub fn classify(c: char) -> (character: Character)
    ensures
        character == classified(c),
{
    Character {
        value: c,
        alphabetic: c.is_alphabetic(),
        numeric: c.is_numeric(),
        whitespace: c.is_whitespace(),
    }
}

/// The kind of a token.
#[derive(Debug, Clone, Copy, PartialEq, Eq, Structural)]
pub enum TokenType {
    /// The declaration keyword `var`.
    Var,
    /// An identifier.
    Name,
    /// An integer literal.
    Number,
    /// One of the truth literals `true` and `false`.
    Truth,
    /// A double-quoted text literal.
    Text,
    /// `=`
    Assign,
    /// A line break; it terminates statements.
    NewLine,
    /// `;`
    SemiColon,
    /// `{`
    LeftCurly,
    /// `}`
    RightCurly,
    /// `(`, which opens the arguments of a call. The lexer yields no token of this kind:
    /// to the lexer a parenthesis is a character that starts no token.
    LeftParen,
    /// `)`, which closes the arguments of a call. The lexer yields no token of this kind.
    RightParen,
    /// `,`, which separates the arguments of a call. The lexer yields no token of this
    /// kind.
    Comma,
    /// The conditional keyword `if`.
    If,
    /// `:`, the debug-print prefix.
    DebugPrint,
}

/// A token: its kind, its text and where it starts in the source.
#[derive(Debug)]
pub struct Token {
    pub token_type: TokenType,
    pub value: String,
    pub line: usize,
    pub column: usize,
}

/// The mathematical value of a [`Token`].
pub struct TokenView {
    pub token_type: TokenType,
    pub value: Seq<char>,
    pub line: nat,
    pub column: nat,
}

impl View for Token {
    type V = TokenView;

    open spec fn view(&self) -> TokenView {
        TokenView {
            token_type: self.token_type,
            value: self.value@,
            line: self.line as nat,
            column: self.column as nat,
        }
    }
}

impl Clone for Token {
    fn clone(&self) -> (copy: Self)
        ensures
            copy == *self,
    {
        Token {
            token_type: self.token_type,
            value: self.value.clone(),
            line: self.line,
            column: self.column,
        }
    }
}

impl Token {
    /// A token with the given kind, text and position.
    pub fn new(token_type: TokenType, value: String, line: usize, column: usize) -> (token: Token)
        ensures
            token@ == (TokenView {
                token_type,
                value: value@,
                line: line as nat,
                column: column as nat,
            }),
    {
        Token { token_type, value, line, column }
    }
}

/// Why lexing stopped before the end of the input.
#[derive(Debug, Clone, Copy, PartialEq, Eq, Structural)]
pub enum LexError {
    /// A text literal is still open at the end of the input.
    UnterminatedText,
    /// A character that starts no token.
    UnexpectedCharacter(char),
}

/// The character classes that delimit runs of characters.
#[derive(Clone, Copy, PartialEq, Eq, Structural)]
pub enum CharClass {
    /// Letters: the characters of names and keywords.
    Letter,
    /// Digits: the characters of integer literals.
    Digit,
    /// Insignificant whitespace: any whitespace but the line break.
    Blank,
}

/// Whether `c` belongs to `class`.
pub open spec fn in_class(class: CharClass, c: Character) -> bool {
    match class {
        CharClass::Letter => c.alphabetic,
        CharClass::Digit => c.numeric,
        CharClass::Blank => c.whitespace && c.value != '\n',
    }
}

/// The end of the maximal run of characters of `class` that starts at `pos`.
pub open spec fn run_end(code: Seq<Character>, pos: int, class: CharClass) -> int
    decreases code.len() - pos,
{
    if 0 <= pos < code.len() && in_class(class, code[pos]) {
        run_end(code, pos + 1, class)
    } else {
        pos
    }
}

/// The number of line breaks among the first `pos` characters.
pub open spec fn line_breaks(code: Seq<Character>, pos: int) -> nat
    decreases pos,
{
    if pos <= 0 {
        0
    } else if code[pos - 1].value == '\n' {
        line_breaks(code, pos - 1) + 1
    } else {
        line_breaks(code, pos - 1)
    }
}

/// The number of characters between the start of the line and `pos`.
pub open spec fn column_at(code: Seq<Character>, pos: int) -> nat
    decreases pos,
{
    if pos <= 0 || code[pos - 1].value == '\n' {
        0
    } else {
        column_at(code, pos - 1) + 1
    }
}

/// The character that an escape sequence `\c` stands for.
pub open spec fn unescape(c: char) -> char {
    if c == 'n' {
        '\n'
    } else if c == 'r' {
        '\r'
    } else if c == 't' {
        '\t'
    } else if c == 'b' {
        '\x08'
    } else if c == 'a' {
        '\x07'
    } else if c == 'v' {
        '\x0B'
    } else {
        c
    }
}

/// The rest of a text literal whose contents so far are `text`: the complete contents and
/// the position after the closing quote, or `None` if the input ends first.
pub open spec fn text_from(code: Seq<Character>, pos: int, text: Seq<char>) -> Option<
    (Seq<char>, int),
>
    decreases code.len() - pos,
{
    if !(0 <= pos < code.len()) {
        None
    } else if code[pos].value == '"' {
        Some((text, pos + 1))
    } else if code[pos].value == '\\' {
        if pos + 1 < code.len() {
            text_from(code, pos + 2, text.push(unescape(code[pos + 1].value)))
        } else {
            None
        }
    } else {
        text_from(code, pos + 1, text.push(code[pos].value))
    }
}

/// The kind of a run of letters: a keyword, a truth literal or a name.
pub open spec fn word_kind(word: Seq<char>) -> TokenType {
    if word == seq!['v', 'a', 'r'] {
        TokenType::Var
    } else if word == seq!['t', 'r', 'u', 'e'] || word == seq!['f', 'a', 'l', 's', 'e'] {
        TokenType::Truth
    } else if word == seq!['i', 'f'] {
        TokenType::If
    } else {
        TokenType::Name
    }
}

/// The kind of the token that consists of the single character `c`, if there is one.
pub open spec fn punctuation(c: char) -> Option<TokenType> {
    if c == '\n' {
        Some(TokenType::NewLine)
    } else if c == '=' {
        Some(TokenType::Assign)
    } else if c == '{' {
        Some(TokenType::LeftCurly)
    } else if c == '}' {
        Some(TokenType::RightCurly)
    } else if c == ';' {
        Some(TokenType::SemiColon)
    } else if c == ':' {
        Some(TokenType::DebugPrint)
    } else {
        None
    }
}

/// The token that starts at `start`, where a non-blank character stands, with the position
/// after it.
pub open spec fn token_at(code: Seq<Character>, start: int) -> Result<(TokenView, int), LexError>
    recommends
        0 <= start < code.len(),
{
    let c = code[start];
    let line = line_breaks(code, start) + 1;
    let column = column_at(code, start);
    if c.alphabetic {
        let end = run_end(code, start, CharClass::Letter);
        let word = plain_text(code, start, end);
        Ok((TokenView { token_type: word_kind(word), value: word, line, column }, end))
    } else if c.numeric {
        let end = run_end(code, start, CharClass::Digit);
        Ok(
            (
                TokenView {
                    token_type: TokenType::Number,
                    value: plain_text(code, start, end),
                    line,
                    column,
                },
                end,
            ),
        )
    } else if c.value == '"' {
        match text_from(code, start + 1, Seq::empty()) {
            Some((text, end)) => Ok(
                (TokenView { token_type: TokenType::Text, value: text, line, column }, end),
            ),
            None => Err(LexError::UnterminatedText),
        }
    } else {
        match punctuation(c.value) {
            Some(token_type) => Ok(
                (TokenView { token_type, value: seq![c.value], line, column }, start + 1),
            ),
            None => Err(LexError::UnexpectedCharacter(c.value)),
        }
    }
}

/// What the lexer yields at `pos`: `None` at the end of the input, else the next token
/// with the position after it, or the error that ends lexing.
pub open spec fn next_token(code: Seq<Character>, pos: int) -> Option<
    Result<(TokenView, int), LexError>,
> {
    let start = run_end(code, pos, CharClass::Blank);
    if start >= code.len() {
        None
    } else {
        Some(token_at(code, start))
    }
}

/// All tokens from `pos` to the end of the input, after those in `found`.
pub open spec fn tokens_from(code: Seq<Character>, pos: int, found: Seq<TokenView>) -> Result<
    Seq<TokenView>,
    LexError,
>
    decreases code.len() - pos,
{
    if 0 <= pos <= code.len() {
        match next_token(code, pos) {
            None => Ok(found),
            Some(Err(error)) => Err(error),
            Some(Ok((token, end))) => {
                proof {
                    lemma_next_token_advances(code, pos);
                }
                tokens_from(code, end, found.push(token))
            },
        }
    } else {
        Ok(found)
    }
}

/// The tokens of a whole source text.
pub open spec fn tokens_of(code: Seq<char>) -> Result<Seq<TokenView>, LexError> {
    tokens_from(classified_text(code), 0, Seq::empty())
}

/// A run ends between its start and the end of the input, and at its start only if the
/// character there is not of the class.
pub proof fn lemma_run_end_bounds(code: Seq<Character>, pos: int, class: CharClass)
    requires
        0 <= pos <= code.len(),
    ensures
        pos <= run_end(code, pos, class) <= code.len(),
        pos < code.len() && in_class(class, code[pos]) ==> pos < run_end(code, pos, class),
    decreases code.len() - pos,
{
    if pos < code.len() && in_class(class, code[pos]) {
        lemma_run_end_bounds(code, pos + 1, class);
    }
}

/// A text literal that closes does so after at least one character and within the input.
pub proof fn lemma_text_from_bounds(code: Seq<Character>, pos: int, text: Seq<char>)
    requires
        0 <= pos <= code.len(),
    ensures
        text_from(code, pos, text) matches Some((_, end)) ==> pos < end <= code.len(),
    decreases code.len() - pos,
{
    if pos < code.len() && code[pos].value != '"' {
        if code[pos].value == '\\' {
            if pos + 1 < code.len() {
                lemma_text_from_bounds(code, pos + 2, text.push(unescape(code[pos + 1].value)));
            }
        } else {
            lemma_text_from_bounds(code, pos + 1, text.push(code[pos].value));
        }
    }
}

/// Every token takes at least one character and ends within the input.
pub proof fn lemma_next_token_advances(code: Seq<Character>, pos: int)
    requires
        0 <= pos <= code.len(),
    ensures
        next_token(code, pos) matches Some(Ok((_, end))) ==> pos < end <= code.len(),
{
    let start = run_end(code, pos, CharClass::Blank);
    lemma_run_end_bounds(code, pos, CharClass::Blank);
    if start < code.len() {
        lemma_run_end_bounds(code, start, CharClass::Letter);
        lemma_run_end_bounds(code, start, CharClass::Digit);
        lemma_text_from_bounds(code, start + 1, Seq::empty());
    }
}

/// Line breaks and columns never outnumber the characters before them.
pub proof fn lemma_position_bounds(code: Seq<Character>, pos: int)
    requires
        0 <= pos,
    ensures
        line_breaks(code, pos) <= pos,
        column_at(code, pos) <= pos,
    decreases pos,
{
    if pos > 0 {
        lemma_position_bounds(code, pos - 1);
    }
}


/// Where the lexer stands in its source.
#[derive(Clone, Copy)]
struct Cursor {
    position: usize,
    line_breaks: usize,
    column: usize,
}

/// A forward-only reader of tokens from a source text.
pub struct Lexer {
    code: Vec<Character>,
    cursor: Cursor,
}

/// The mathematical value of a [`Lexer`]: the characters of its source text and how far
/// it has read.
pub struct LexerView {
    pub code: Seq<Character>,
    pub position: nat,
}

impl View for Lexer {
    type V = LexerView;

    closed spec fn view(&self) -> LexerView {
        LexerView { code: self.code@, position: self.cursor.position as nat }
    }
}

/// The characters of `text`, in order, each with its Unicode classes.
fn characters(text: &str) -> (chars: Vec<Character>)
    ensures
        chars@ == classified_text(text@),
{
    let mut chars: Vec<Character> = Vec::new();
    for c in it: text.chars()
        invariant
            chars@ == classified_text(it.seq().take(it.index() as int)),
            it.seq() == text@,
    {
        let ghost before = it.seq().take(it.index() as int);
        chars.push(classify(c));
        proof {
            assert(it.seq().take(it.index() + 1) =~= before.push(c));
            assert(classified_text(before.push(c)) =~= classified_text(before).push(
                classified(c),
            ));
        }
    }
    chars
}

/// Whether `c` belongs to `class`.
fn belongs(class: CharClass, c: Character) -> (yes: bool)
    ensures
        yes == in_class(class, c),
{
    match class {
        CharClass::Letter => c.alphabetic,
        CharClass::Digit => c.numeric,
        CharClass::Blank => c.whitespace && c.value != '\n',
    }
}

/// The character that the escape sequence `\c` stands for.
fn unescaped(c: char) -> (plain: char)
    ensures
        plain == unescape(c),
{
    if c == 'n' {
        '\n'
    } else if c == 'r' {
        '\r'
    } else if c == 't' {
        '\t'
    } else if c == 'b' {
        '\x08'
    } else if c == 'a' {
        '\x07'
    } else if c == 'v' {
        '\x0B'
    } else {
        c
    }
}

/// The kind of the single-character token `c`, if it is one.
fn punctuation_kind(c: char) -> (kind: Option<TokenType>)
    ensures
        kind == punctuation(c),
{
    if c == '\n' {
        Some(TokenType::NewLine)
    } else if c == '=' {
        Some(TokenType::Assign)
    } else if c == '{' {
        Some(TokenType::LeftCurly)
    } else if c == '}' {
        Some(TokenType::RightCurly)
    } else if c == ';' {
        Some(TokenType::SemiColon)
    } else if c == ':' {
        Some(TokenType::DebugPrint)
    } else {
        None
    }
}

impl Lexer {
    #[verifier::type_invariant]
    spec fn consistent(&self) -> bool {
        &&& self.cursor.position <= self.code@.len()
        &&& self.cursor.line_breaks == line_breaks(self.code@, self.cursor.position as int)
        &&& self.cursor.column == column_at(self.code@, self.cursor.position as int)
    }

    /// A lexer at the start of `code`.
    pub fn new(code: String) -> (lexer: Lexer)
        ensures
            lexer@ == (LexerView { code: classified_text(code@), position: 0 }),
    {
        Lexer::from_characters(characters(code.as_str()))
    }

    /// A lexer at the start of a text whose characters are given with their classes.
    pub fn from_characters(code: Vec<Character>) -> (lexer: Lexer)
        ensures
            lexer@ == (LexerView { code: code@, position: 0 }),
    {
        Lexer { code, cursor: Cursor { position: 0, line_breaks: 0, column: 0 } }
    }

    /// The character at the current position, if the input has not ended.
    fn current_char(&self) -> (c: Option<Character>)
        ensures
            self@.position <= self@.code.len(),
            c == if self@.position < self@.code.len() {
                Some(self@.code[self@.position as int])
            } else {
                None::<Character>
            },
    {
        proof {
            use_type_invariant(self);
        }
        if self.cursor.position < self.code.len() {
            Some(self.code[self.cursor.position])
        } else {
            None
        }
    }

    /// Steps over the current character.
    fn advance(&mut self)
        requires
            old(self)@.position < old(self)@.code.len(),
        ensures
            final(self)@ == (LexerView { position: old(self)@.position + 1, ..old(self)@ }),
    {
        proof {
            use_type_invariant(&*self);
            lemma_position_bounds(self.code@, self.cursor.position as int);
        }
        let length = self.code.len();
        let c = self.code[self.cursor.position].value;
        let cursor = if c == '\n' {
            Cursor {
                position: self.cursor.position + 1,
                line_breaks: self.cursor.line_breaks + 1,
                column: 0,
            }
        } else {
            Cursor {
                position: self.cursor.position + 1,
                line_breaks: self.cursor.line_breaks,
                column: self.cursor.column + 1,
            }
        };
        self.cursor = cursor;
    }

    /// Steps over the maximal run of characters of `class` at the current position.
    fn skip_run(&mut self, class: CharClass)
        ensures
            final(self)@.code == old(self)@.code,
            final(self)@.position == run_end(old(self)@.code, old(self)@.position as int, class),
            old(self)@.position <= final(self)@.position <= old(self)@.code.len(),
    {
        proof {
            use_type_invariant(&*self);
        }
        loop
            invariant
                self@.code == old(self)@.code,
                old(self)@.position <= self@.position <= self@.code.len(),
                run_end(self@.code, self@.position as int, class) == run_end(
                    old(self)@.code,
                    old(self)@.position as int,
                    class,
                ),
            ensures
                self@.position == run_end(old(self)@.code, old(self)@.position as int, class),
            decreases self@.code.len() - self@.position,
        {
            match self.current_char() {
                Some(c) => {
                    if !belongs(class, c) {
                        break ;
                    }
                    self.advance();
                },
                None => {
                    break ;
                },
            }
        }
    }

    /// Steps over insignificant whitespace.
    fn ignore_whitespace(&mut self)
        ensures
            final(self)@.code == old(self)@.code,
            final(self)@.position == run_end(
                old(self)@.code,
                old(self)@.position as int,
                CharClass::Blank,
            ),
            old(self)@.position <= final(self)@.position <= old(self)@.code.len(),
    {
        self.skip_run(CharClass::Blank)
    }

    /// Steps to the end of the input.
    fn exhaust(&mut self)
        ensures
            final(self)@ == (LexerView { position: old(self)@.code.len(), ..old(self)@ }),
    {
        proof {
            use_type_invariant(&*self);
        }
        while self.cursor.position < self.code.len()
            invariant
                self@.code == old(self)@.code,
                self@.position <= self@.code.len(),
            decreases self@.code.len() - self@.position,
        {
            self.advance();
        }
    }

    /// The characters from `start` up to the current position, as a string.
    fn text_since(&self, start: usize) -> (text: String)
        requires
            start <= self@.position,
        ensures
            self@.position <= self@.code.len(),
            text@ == plain_text(self@.code, start as int, self@.position as int),
    {
        proof {
            use_type_invariant(self);
        }
        let mut text = String::new();
        let mut i = start;
        proof {
            assert(text@ =~= plain_text(self.code@, start as int, i as int));
        }
        while i < self.cursor.position
            invariant
                start <= i <= self.cursor.position <= self.code@.len(),
                text@ == plain_text(self.code@, start as int, i as int),
            decreases self.cursor.position - i,
        {
            text.push(self.code[i].value);
            i += 1;
            proof {
                assert(text@ =~= plain_text(self.code@, start as int, i as int));
            }
        }
        text
    }

    /// The kind of the run of letters from `start` up to the current position.
    fn word_kind_since(&self, start: usize) -> (kind: TokenType)
        requires
            start <= self@.position,
        ensures
            self@.position <= self@.code.len(),
            kind == word_kind(plain_text(self@.code, start as int, self@.position as int)),
    {
        proof {
            use_type_invariant(self);
        }
        let code = &self.code;
        let length = self.cursor.position - start;
        let ghost word = plain_text(code@, start as int, self.cursor.position as int);
        if length == 3 && code[start].value == 'v' && code[start + 1].value == 'a' && code[start
            + 2].value == 'r' {
            assert(word =~= seq!['v', 'a', 'r']);
            TokenType::Var
        } else if length == 4 && code[start].value == 't' && code[start + 1].value == 'r'
            && code[start + 2].value == 'u' && code[start + 3].value == 'e' {
            assert(word =~= seq!['t', 'r', 'u', 'e']);
            TokenType::Truth
        } else if length == 5 && code[start].value == 'f' && code[start + 1].value == 'a'
            && code[start + 2].value == 'l' && code[start + 3].value == 's' && code[start
            + 4].value == 'e' {
            assert(word =~= seq!['f', 'a', 'l', 's', 'e']);
            TokenType::Truth
        } else if length == 2 && code[start].value == 'i' && code[start + 1].value == 'f' {
            assert(word =~= seq!['i', 'f']);
            TokenType::If
        } else {
            assert(word != seq!['v', 'a', 'r']) by {
                if word == seq!['v', 'a', 'r'] {
                    assert(word.len() == 3 && word[0] == 'v' && word[1] == 'a' && word[2] == 'r');
                }
            }
            assert(word != seq!['t', 'r', 'u', 'e']) by {
                if word == seq!['t', 'r', 'u', 'e'] {
                    assert(word.len() == 4 && word[0] == 't' && word[1] == 'r' && word[2] == 'u'
                        && word[3] == 'e');
                }
            }
            assert(word != seq!['f', 'a', 'l', 's', 'e']) by {
                if word == seq!['f', 'a', 'l', 's', 'e'] {
                    assert(word.len() == 5 && word[0] == 'f' && word[1] == 'a' && word[2] == 'l'
                        && word[3] == 's' && word[4] == 'e');
                }
            }
            assert(word != seq!['i', 'f']) by {
                if word == seq!['i', 'f'] {
                    assert(word.len() == 2 && word[0] == 'i' && word[1] == 'f');
                }
            }
            TokenType::Name
        }
    }

    /// Reads the character after a backslash: `None` at the end of the input, else the
    /// character that the escape sequence stands for.
    fn escape_char(&mut self) -> (escaped: Option<char>)
        ensures
            final(self)@.code == old(self)@.code,
            old(self)@.position <= old(self)@.code.len(),
            old(self)@.position < old(self)@.code.len() ==> escaped == Some(
                unescape(old(self)@.code[old(self)@.position as int].value),
            ) && final(self)@.position == old(self)@.position + 1,
            old(self)@.position == old(self)@.code.len() ==> escaped is None && final(self)@
                == old(self)@,
    {
        match self.current_char() {
            Some(c) => {
                self.advance();
                Some(unescaped(c.value))
            },
            None => None,
        }
    }

    /// Reads the rest of a text literal, the opening quote already read: its contents, or
    /// the error if the input ends before the closing quote. On success the lexer stands
    /// after the closing quote.
    fn text(&mut self) -> (contents: Result<String, LexError>)
        ensures
            final(self)@.code == old(self)@.code,
            final(self)@.position <= old(self)@.code.len(),
            match text_from(old(self)@.code, old(self)@.position as int, Seq::empty()) {
                Some((text, end)) => contents matches Ok(s) && s@ == text && final(self)@.position
                    == end,
                None => contents == Err::<String, LexError>(LexError::UnterminatedText),
            },
    {
        let mut value = String::new();
        proof {
            use_type_invariant(&*self);
        }
        loop
            invariant
                self@.code == old(self)@.code,
                self@.position <= self@.code.len(),
                text_from(self@.code, self@.position as int, value@) == text_from(
                    old(self)@.code,
                    old(self)@.position as int,
                    Seq::empty(),
                ),
            decreases self@.code.len() - self@.position,
        {
            match self.current_char() {
                None => {
                    return Err(LexError::UnterminatedText);
                },
                Some(character) => {
                    let c = character.value;
                    if c == '"' {
                        self.advance();
                        return Ok(value);
                    }
                    if c == '\\' {
                        self.advance();
                        match self.escape_char() {
                            Some(escaped) => {
                                value.push(escaped);
                            },
                            None => {
                                return Err(LexError::UnterminatedText);
                            },
                        }
                    } else {
                        value.push(c);
                        self.advance();
                    }
                },
            }
        }
    }

    /// The next token: `None` at the end of the input, else the token, or the error that
    /// ends lexing. After an error the lexer stands at the end of its input.
    pub fn next(&mut self) -> (item: Option<Result<Token, LexError>>)
        ensures
            final(self)@.code == old(self)@.code,
            old(self)@.position <= final(self)@.position <= old(self)@.code.len(),
            match next_token(old(self)@.code, old(self)@.position as int) {
                None => item is None && final(self)@.position == old(self)@.code.len(),
                Some(Err(error)) => item == Some(Err::<Token, LexError>(error))
                    && final(self)@.position == old(self)@.code.len(),
                Some(Ok((token, end))) => item matches Some(Ok(t)) && t@ == token
                    && final(self)@.position == end && old(self)@.position < end,
            },
    {
        self.ignore_whitespace();
        let ghost code = self@.code;
        let first = self.current_char();
        proof {
            use_type_invariant(&*self);
            lemma_position_bounds(self.code@, self.cursor.position as int);
            lemma_next_token_advances(old(self)@.code, old(self)@.position as int);
        }
        match first {
            None => None,
            Some(character) => {
                let c = character.value;
                let length = self.code.len();
                let start = self.cursor.position;
                let line = self.cursor.line_breaks + 1;
                let column = self.cursor.column;
                if character.alphabetic {
                    self.skip_run(CharClass::Letter);
                    let token_type = self.word_kind_since(start);
                    let value = self.text_since(start);
                    Some(Ok(Token { token_type, value, line, column }))
                } else if character.numeric {
                    self.skip_run(CharClass::Digit);
                    let value = self.text_since(start);
                    Some(Ok(Token { token_type: TokenType::Number, value, line, column }))
                } else if c == '"' {
                    self.advance();
                    match self.text() {
                        Ok(value) => Some(
                            Ok(Token { token_type: TokenType::Text, value, line, column }),
                        ),
                        Err(error) => {
                            self.exhaust();
                            Some(Err(error))
                        },
                    }
                } else {
                    match punctuation_kind(c) {
                        Some(token_type) => {
                            self.advance();
                            let mut value = String::new();
                            value.push(c);
                            Some(Ok(Token { token_type, value, line, column }))
                        },
                        None => {
                            self.exhaust();
                            Some(Err(LexError::UnexpectedCharacter(c)))
                        },
                    }
                }
            },
        }
    }

    /// All remaining tokens, or the error that ends lexing.
    pub fn collect(self) -> (tokens: Result<Vec<Token>, LexError>)
        ensures
            match tokens_from(self@.code, self@.position as int, Seq::empty()) {
                Ok(views) => tokens matches Ok(found) && token_views(found@) == views,
                Err(error) => tokens == Err::<Vec<Token>, LexError>(error),
            },
    {
        let mut lexer = self;
        let mut found: Vec<Token> = Vec::new();
        proof {
            use_type_invariant(&lexer);
            assert(token_views(found@) =~= Seq::<TokenView>::empty());
        }
        loop
            invariant
                lexer@.code == self@.code,
                lexer@.position <= lexer@.code.len(),
                tokens_from(lexer@.code, lexer@.position as int, token_views(found@))
                    == tokens_from(self@.code, self@.position as int, Seq::empty()),
            decreases lexer@.code.len() - lexer@.position,
        {
            let ghost before = token_views(found@);
            match lexer.next() {
                None => {
                    return Ok(found);
                },
                Some(Err(error)) => {
                    return Err(error);
                },
                Some(Ok(token)) => {
                    found.push(token);
                    proof {
                        assert(token_views(found@) =~= before.push(token@));
                    }
                },
            }
        }
    }
}

/// The mathematical values of a sequence of tokens.
pub open spec fn token_views(tokens: Seq<Token>) -> Seq<TokenView> {
    tokens.map_values(|token: Token| token@)
}

/// The name of a kind of token.
pub open spec fn kind_name(kind: TokenType) -> Seq<char> {
    match kind {
        TokenType::Var => "Var"@,
        TokenType::Name => "Name"@,
        TokenType::Number => "Number"@,
        TokenType::Truth => "Truth"@,
        TokenType::Text => "Text"@,
        TokenType::Assign => "Assign"@,
        TokenType::NewLine => "NewLine"@,
        TokenType::SemiColon => "SemiColon"@,
        TokenType::LeftCurly => "LeftCurly"@,
        TokenType::RightCurly => "RightCurly"@,
        TokenType::LeftParen => "LeftParen"@,
        TokenType::RightParen => "RightParen"@,
        TokenType::Comma => "Comma"@,
        TokenType::If => "If"@,
        TokenType::DebugPrint => "DebugPrint"@,
    }
}

/// How a token is described to a reader: the name of its kind and, in quotes, its text.
pub open spec fn token_description(token: TokenView) -> Seq<char> {
    kind_name(token.token_type) + " \""@ + token.value + "\""@
}

/// How a lexical error is described to a reader.
pub open spec fn lex_error_description(error: LexError) -> Seq<char> {
    match error {
        LexError::UnterminatedText => "Unterminated text literal"@,
        LexError::UnexpectedCharacter(c) => "Unexpected character: "@.push(c),
    }
}

impl TokenType {
    /// The name of this kind of token.
    pub fn name(&self) -> (name: &'static str)
        ensures
            name@ == kind_name(*self),
    {
        match self {
            TokenType::Var => "Var",
            TokenType::Name => "Name",
            TokenType::Number => "Number",
            TokenType::Truth => "Truth",
            TokenType::Text => "Text",
            TokenType::Assign => "Assign",
            TokenType::NewLine => "NewLine",
            TokenType::SemiColon => "SemiColon",
            TokenType::LeftCurly => "LeftCurly",
            TokenType::RightCurly => "RightCurly",
            TokenType::LeftParen => "LeftParen",
            TokenType::RightParen => "RightParen",
            TokenType::Comma => "Comma",
            TokenType::If => "If",
            TokenType::DebugPrint => "DebugPrint",
        }
    }
}

impl Token {
    /// A description of this token for a reader.
    pub fn description(&self) -> (text: String)
        ensures
            text@ == token_description(self@),
    {
        let mut text = self.token_type.name().to_owned();
        text.append(" \"");
        text.append(self.value.as_str());
        text.append("\"");
        text
    }
}

impl LexError {
    /// A description of this error for a reader.
    pub fn description(&self) -> (text: String)
        ensures
            text@ == lex_error_description(*self),
    {
        match self {
            LexError::UnterminatedText => "Unterminated text literal".to_owned(),
            LexError::UnexpectedCharacter(c) => {
                let mut text = "Unexpected character: ".to_owned();
                text.push(*c);
                text
            },
        }
    }
}

} // verus!
