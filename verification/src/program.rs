//! What the compiler makes of a source text, as mathematics.
//!
//! The functions here define the compilation of a program: for every
//! construct of the language the tokens that are read, the code that is
//! emitted and the errors that are recorded, from the state in which the
//! construct begins to the state in which it ends. A source is a program
//! if no error is recorded for it; the chunk of a program is the code that
//! was emitted.
//!
//! The definitions follow the grammar, so they call each other. Each says
//! that it goes on only if the reading has not gone backwards, which is
//! what shows that it comes to an end; the reading never goes backwards,
//! so the other branch is never taken.
use crate::chunk::OpCode;
use crate::compiler::{
    complaint, good_start, rule_of, token_at, Depth, Handler, Precedence, MAX_JUMP, PLACEHOLDER,
};
use crate::scanner::{after_trivia, lexeme_end, lexeme_kind, newlines, Lexed, TokenType};
use vstd::prelude::*;

verus! {

/// A constant of the pool as the compiler writes it: a number by the text
/// of its literal, a string by its characters.
pub enum Constant {
    Number(Seq<char>),
    Text(Seq<char>),
}

/// A local variable: its name, the line on which it is declared, and the
/// depth of its scope.
pub struct Variable {
    pub name: Seq<char>,
    pub line: i32,
    pub depth: Depth,
}

/// An error: what is wrong, the lexeme at which it was found, and the line.
pub struct Failure {
    pub message: Seq<char>,
    pub token: Seq<char>,
    pub line: int,
}

/// The state of a compilation.
pub struct State {
    /// Where the lexeme starts that was read last.
    pub start: int,
    /// How far the source is read.
    pub position: int,
    /// The line that the reading has come to.
    pub line: i32,
    /// The token read last.
    pub previous: Lexed,
    /// The token being looked at.
    pub current: Lexed,
    pub code: Seq<u8>,
    pub lines: Seq<i32>,
    pub pool: Seq<Constant>,
    /// The locals that are alive, innermost last.
    pub locals: Seq<Variable>,
    pub depth: Depth,
    /// Whether an error was found.
    pub had_error: bool,
    /// Whether an error was found since a statement began: the errors that
    /// follow it are dropped.
    pub panic_mode: bool,
    /// The errors that were recorded, in the order in which they were found.
    pub errors: Seq<Failure>,
}

/// How much is left to read: the characters that are not read yet, and the
/// token being looked at unless it is the end of the source.
pub open spec fn rest(source: Seq<char>, s: State) -> nat {
    if 0 <= s.position <= source.len() {
        (source.len() - s.position + if s.current.token_type != TokenType::EOF {
            1int
        } else {
            0int
        }) as nat
    } else {
        0
    }
}

/// The state in which nothing is read and nothing compiled.
pub open spec fn initial() -> State {
    let none = Lexed { token_type: TokenType::EOF, lexeme: Seq::empty(), line: 0 };
    State {
        start: 0,
        position: 0,
        line: 1,
        previous: none,
        current: none,
        code: Seq::empty(),
        lines: Seq::empty(),
        pool: Seq::empty(),
        locals: Seq::empty(),
        depth: Depth::Global,
        had_error: false,
        panic_mode: false,
        errors: Seq::empty(),
    }
}

// ---------------------------------------------------------------------------
// Errors.
// ---------------------------------------------------------------------------
/// Takes note of an error: it is recorded, unless an error was found since
/// the statement began.
pub open spec fn told(s: State, failure: Failure) -> State {
    if s.panic_mode {
        s
    } else {
        State { had_error: true, panic_mode: true, errors: s.errors.push(failure), ..s }
    }
}

/// Takes note of an error with this message at the token read last.
pub open spec fn wrong(s: State, message: Seq<char>) -> State {
    told(s, Failure { message, token: s.previous.lexeme, line: s.previous.line as int })
}

// ---------------------------------------------------------------------------
// Reading tokens.
// ---------------------------------------------------------------------------
/// Reads the next token: the lexemes that are no tokens are passed over, and
/// the first of them is an error, at that lexeme and on the line where it
/// starts.
pub open spec fn advance(source: Seq<char>, s: State) -> State {
    let first = after_trivia(source, s.position, false);
    let start = good_start(source, s.position);
    let end = if start < source.len() {
        lexeme_end(source, start)
    } else {
        start
    };
    let line = (s.line + newlines(source, s.position, end)) as i32;
    let read = State {
        start,
        position: end,
        line,
        previous: s.current,
        current: token_at(source, start, line),
        ..s
    };
    if first < source.len() && !(lexeme_kind(source, first) is Token) {
        told(
            read,
            Failure {
                message: complaint(lexeme_kind(source, first)),
                token: source.subrange(first, lexeme_end(source, first)),
                line: s.line + newlines(source, s.position, first),
            },
        )
    } else {
        read
    }
}

/// Reads a token that must be of the given kind. If the token being looked
/// at is of another kind, nothing is read, and that is an error with the
/// given message, at the lexeme read last.
pub open spec fn expect(
    source: Seq<char>,
    s: State,
    token_type: TokenType,
    message: Seq<char>,
) -> State {
    if s.current.token_type == token_type {
        advance(source, s)
    } else {
        told(
            s,
            Failure { message, token: source.subrange(s.start, s.position), line: s.line as int },
        )
    }
}

/// A point where a statement is likely to begin: behind a semicolon, in
/// front of a keyword that begins a statement, or at the end of the source.
pub open spec fn resumable(s: State) -> bool {
    let next = s.current.token_type;
    next == TokenType::EOF || s.previous.token_type == TokenType::Semicolon || next
        == TokenType::Class || next == TokenType::Fun || next == TokenType::Var || next
        == TokenType::For || next == TokenType::If || next == TokenType::While || next
        == TokenType::Print || next == TokenType::Return
}

/// Reads on to the first point where a statement is likely to begin.
#[verifier::opaque]
pub open spec fn resume(source: Seq<char>, s: State) -> State
    decreases rest(source, s),
{
    if !resumable(s) && rest(source, advance(source, s)) < rest(source, s) {
        resume(source, advance(source, s))
    } else {
        s
    }
}

/// Begins anew after an error: the errors that follow are no longer
/// dropped, and the reading goes on to the first point where a statement is
/// likely to begin.
pub open spec fn synchronise(source: Seq<char>, s: State) -> State {
    resume(source, State { panic_mode: false, ..s })
}

// ---------------------------------------------------------------------------
// Emitting code.
// ---------------------------------------------------------------------------
/// `n` times `x`.
pub open spec fn repeated<T>(x: T, n: nat) -> Seq<T> {
    Seq::new(n, |i: int| x)
}

/// Appends bytes of code on the line of the token read last.
pub open spec fn emit(s: State, bytes: Seq<u8>) -> State {
    State { code: s.code + bytes, lines: s.lines + repeated(s.previous.line, bytes.len()), ..s }
}

/// Appends an instruction without operand.
pub open spec fn emit_op(s: State, op: OpCode) -> State {
    emit(s, seq![op.to_byte()])
}

/// Appends an instruction with a one-byte operand.
pub open spec fn emit_with(s: State, op: OpCode, operand: u8) -> State {
    emit(s, seq![op.to_byte(), operand])
}

/// Appends a jump whose distance is still a placeholder.
pub open spec fn emit_jump(s: State, op: OpCode) -> State {
    emit(s, seq![op.to_byte(), PLACEHOLDER, PLACEHOLDER])
}

/// Fills in the distance of the jump that was emitted at `at`, so that it
/// lands behind the code. It is an error if the distance is too long.
pub open spec fn patch(s: State, at: int) -> State {
    let distance = s.code.len() - at - 3;
    if distance > MAX_JUMP {
        wrong(s, "Too much code to jump over."@)
    } else {
        State {
            code: s.code.update(at + 1, (distance / 256) as u8).update(
                at + 2,
                (distance % 256) as u8,
            ),
            ..s
        }
    }
}

/// Appends a `Loop` back to `start`. It is an error if the distance is too
/// long: then the instruction has no operand.
pub open spec fn emit_loop(s: State, start: int) -> State {
    let distance = s.code.len() + 3 - start;
    if distance > MAX_JUMP {
        wrong(emit_op(s, OpCode::Loop), "Loop body too large."@)
    } else {
        emit(s, seq![OpCode::Loop.to_byte(), (distance / 256) as u8, (distance % 256) as u8])
    }
}

/// The index that the next constant gets: its place in the pool, or 0 if the
/// pool is full.
pub open spec fn next_index(s: State) -> u8 {
    if s.pool.len() > 255 {
        0
    } else {
        s.pool.len() as u8
    }
}

/// Adds a constant to the pool. It is an error if the pool is full.
pub open spec fn pooled(s: State, constant: Constant) -> State {
    let added = State { pool: s.pool.push(constant), ..s };
    if s.pool.len() > 255 {
        wrong(added, "Too many constants in one chunk."@)
    } else {
        added
    }
}

/// Adds a constant to the pool and emits the instruction that loads it.
pub open spec fn load(s: State, constant: Constant) -> State {
    emit_with(pooled(s, constant), OpCode::Constant, next_index(s))
}

// ---------------------------------------------------------------------------
// Scopes.
// ---------------------------------------------------------------------------
/// The slot of the innermost local of that name, if there is one.
pub open spec fn slot_of(locals: Seq<Variable>, name: Seq<char>) -> Option<int>
    decreases locals.len(),
{
    if locals.len() == 0 {
        None
    } else if locals.last().name == name {
        Some(locals.len() - 1)
    } else {
        slot_of(locals.drop_last(), name)
    }
}

/// Whether the scope at `depth` already has a local of that name.
pub open spec fn taken(locals: Seq<Variable>, name: Seq<char>, depth: Depth) -> bool
    decreases locals.len(),
{
    if locals.len() == 0 {
        false
    } else {
        let l = locals.last();
        if l.depth != Depth::Uninitialised && l.depth.rank() < depth.rank() {
            false
        } else if l.name == name {
            true
        } else {
            taken(locals.drop_last(), name, depth)
        }
    }
}

/// How many locals stay when the scopes deeper than `depth` end.
pub open spec fn staying(locals: Seq<Variable>, depth: Depth) -> nat
    decreases locals.len(),
{
    if locals.len() > 0 && locals.last().depth.rank() > depth.rank() {
        staying(locals.drop_last(), depth)
    } else {
        locals.len()
    }
}

/// Declares the variable named by the token read last. Outside of every
/// block nothing is declared. It is an error if the scope has a local of
/// that name or the locals are full.
pub open spec fn declare(s: State) -> State {
    if s.depth == Depth::Global {
        s
    } else if taken(s.locals, s.previous.lexeme, s.depth) {
        wrong(s, "Variable with this name already declared in this scope."@)
    } else if s.locals.len() >= 256 {
        wrong(s, "Too many local variables in function."@)
    } else {
        State {
            locals: s.locals.push(
                Variable {
                    name: s.previous.lexeme,
                    line: s.previous.line,
                    depth: Depth::Uninitialised,
                },
            ),
            ..s
        }
    }
}

/// Leaves a scope: its locals go, and a `Pop` is emitted for each.
pub open spec fn end_scope(s: State) -> State {
    let depth = s.depth.shallower(1);
    let stay = staying(s.locals, depth);
    let t = emit(s, repeated(OpCode::Pop.to_byte(), (s.locals.len() - stay) as nat));
    State { locals: s.locals.take(stay as int), depth, ..t }
}

// ---------------------------------------------------------------------------
// Expressions.
// ---------------------------------------------------------------------------
/// The instructions of a binary operator, emitted one by one.
pub open spec fn operator(s: State, token_type: TokenType) -> State {
    match token_type {
        TokenType::BangEqual => emit_op(emit_op(s, OpCode::Equal), OpCode::Not),
        TokenType::EqualEqual => emit_op(s, OpCode::Equal),
        TokenType::Greater => emit_op(s, OpCode::Greater),
        TokenType::GreaterEqual => emit_op(emit_op(s, OpCode::Less), OpCode::Not),
        TokenType::Less => emit_op(s, OpCode::Less),
        TokenType::LessEqual => emit_op(emit_op(s, OpCode::Greater), OpCode::Not),
        TokenType::Plus => emit_op(s, OpCode::Add),
        TokenType::Minus => emit_op(s, OpCode::Subtract),
        TokenType::Star => emit_op(s, OpCode::Multiple),
        _ => emit_op(s, OpCode::Divide),
    }
}

/// The instruction of a literal keyword.
pub open spec fn literal_op(token_type: TokenType) -> OpCode {
    match token_type {
        TokenType::False => OpCode::False,
        TokenType::Nil => OpCode::Nil,
        _ => OpCode::True,
    }
}

/// Where an assignment would be allowed, a `=` that is left over behind an
/// expression is read, and is an error.
pub open spec fn settled(source: Seq<char>, can_assign: bool, s: State) -> State {
    if can_assign && s.current.token_type == TokenType::Equal {
        wrong(advance(source, s), "Invalid assignment target."@)
    } else {
        s
    }
}

/// An expression whose operators bind at least as strongly as
/// `precedence`: one token is read and what begins with it is compiled;
/// then, as long as an operator follows that binds strongly enough, the
/// rest of its operation. It is an error if the token that is read begins
/// no expression, and if a `=` is left over where an assignment would be
/// allowed.
#[verifier::opaque]
pub open spec fn parse_precedence(source: Seq<char>, s: State, precedence: Precedence) -> State
    decreases rest(source, s), 0int,
{
    let s1 = advance(source, s);
    match rule_of(s1.previous.token_type).prefix {
        Some(handler) => {
            let can_assign = precedence.level() <= Precedence::Assignment.level();
            if rest(source, s1) < rest(source, s) {
                let s2 = prefix(source, s1, handler, can_assign);
                if rest(source, s2) <= rest(source, s1) {
                    settled(source, can_assign, operations(source, s2, precedence))
                } else {
                    s2
                }
            } else {
                s1
            }
        },
        None => wrong(s1, "Expect expression."@),
    }
}

/// What begins with the token read last, by the handler of that token.
#[verifier::opaque]
pub open spec fn prefix(source: Seq<char>, s: State, handler: Handler, can_assign: bool) -> State
    decreases rest(source, s), 3int,
{
    match handler {
        Handler::Grouping => expect(
            source,
            expression(source, s),
            TokenType::RightParen,
            "Expect ')' after expression."@,
        ),
        Handler::Unary => emit_op(
            parse_precedence(source, s, Precedence::Unary),
            if s.previous.token_type == TokenType::Bang {
                OpCode::Not
            } else {
                OpCode::Negate
            },
        ),
        Handler::Variable => variable(source, s, can_assign),
        Handler::Text => load(
            s,
            Constant::Text(s.previous.lexeme.subrange(1, s.previous.lexeme.len() - 1)),
        ),
        Handler::Number => load(s, Constant::Number(s.previous.lexeme)),
        Handler::Literal => emit_op(s, literal_op(s.previous.token_type)),
        _ => s,
    }
}

/// A read of the variable named by the token read last, or, where an
/// assignment is allowed and `=` follows, the assignment to it. A local is
/// addressed by its slot, any other name as a global. It is an error if a
/// local is read in its own initializer: the error is at the declaration of
/// the local, and nothing is emitted.
#[verifier::opaque]
pub open spec fn variable(source: Seq<char>, s: State, can_assign: bool) -> State
    decreases rest(source, s), 2int,
{
    let name = s.previous.lexeme;
    let found = slot_of(s.locals, name);
    if found is Some && s.locals[found->0].depth == Depth::Uninitialised {
        told(
            s,
            Failure {
                message: "Cannot read local variable in its own initializer."@,
                token: name,
                line: s.locals[found->0].line as int,
            },
        )
    } else {
        let named = if found is Some {
            s
        } else {
            pooled(s, Constant::Text(name))
        };
        let operand = if found is Some {
            (found->0 % 256) as u8
        } else {
            next_index(s)
        };
        let get = if found is Some {
            OpCode::GetLocal
        } else {
            OpCode::GetGlobal
        };
        let set = if found is Some {
            OpCode::SetLocal
        } else {
            OpCode::SetGlobal
        };
        if can_assign && named.current.token_type == TokenType::Equal {
            let s2 = advance(source, named);
            if rest(source, s2) <= rest(source, s) {
                emit_with(expression(source, s2), set, operand)
            } else {
                s2
            }
        } else {
            emit_with(named, get, operand)
        }
    }
}

/// The operations whose operators follow and bind at least as strongly as
/// `precedence`.
#[verifier::opaque]
pub open spec fn operations(source: Seq<char>, s: State, precedence: Precedence) -> State
    decreases rest(source, s), 4int,
{
    if precedence != Precedence::Lowest && precedence.level() <= rule_of(
        s.current.token_type,
    ).precedence.level() {
        let s1 = advance(source, s);
        if rest(source, s1) < rest(source, s) {
            let s2 = infix(source, s1);
            if rest(source, s2) <= rest(source, s1) {
                operations(source, s2, precedence)
            } else {
                s2
            }
        } else {
            s1
        }
    } else {
        s
    }
}

/// The rest of the operation whose operator was read last.
#[verifier::opaque]
pub open spec fn infix(source: Seq<char>, s: State) -> State
    decreases rest(source, s), 3int,
{
    match rule_of(s.previous.token_type).infix {
        Some(Handler::Binary) => operator(
            parse_precedence(source, s, rule_of(s.previous.token_type).precedence.stronger()),
            s.previous.token_type,
        ),
        Some(Handler::And) => patch(
            parse_precedence(
                source,
                emit_op(emit_jump(s, OpCode::JumpIfFalse), OpCode::Pop),
                Precedence::And,
            ),
            s.code.len() as int,
        ),
        Some(Handler::Or) => {
            let jumps = emit_jump(emit_jump(s, OpCode::JumpIfFalse), OpCode::Jump);
            patch(
                parse_precedence(
                    source,
                    emit_op(patch(jumps, s.code.len() as int), OpCode::Pop),
                    Precedence::Or,
                ),
                s.code.len() as int + 3,
            )
        },
        _ => s,
    }
}

/// An expression.
#[verifier::opaque]
pub open spec fn expression(source: Seq<char>, s: State) -> State
    decreases rest(source, s), 1int,
{
    parse_precedence(source, s, Precedence::Assignment)
}

// ---------------------------------------------------------------------------
// Statements.
// ---------------------------------------------------------------------------
/// Whether variables that are declared at this depth are globals.
pub open spec fn is_global(depth: Depth) -> bool {
    depth.rank() <= Depth::Global.rank()
}

/// The name of a variable that is being declared, as far as it is read and
/// declared: the identifier is read, and a local is declared. `missing` is
/// the message of the error where no identifier stands.
pub open spec fn named(source: Seq<char>, s: State, missing: Seq<char>) -> State {
    declare(expect(source, s, TokenType::Identifier, missing))
}

/// The name of a variable that is being declared: the identifier is read;
/// a local is declared, for a global the constant of its name is added.
pub open spec fn declared(source: Seq<char>, s: State, missing: Seq<char>) -> State {
    let name = named(source, s, missing);
    if is_global(name.depth) {
        pooled(name, Constant::Text(name.previous.lexeme))
    } else {
        name
    }
}

/// The definition of the variable that was declared last: a global is
/// defined by an instruction that names the constant at `index`; a local
/// is marked initialised.
pub open spec fn defined(s: State, index: u8) -> State {
    if is_global(s.depth) {
        emit_with(s, OpCode::DefineGlobal, index)
    } else if s.locals.len() > 0 {
        State {
            locals: s.locals.drop_last().push(Variable { depth: s.depth, ..s.locals.last() }),
            ..s
        }
    } else {
        s
    }
}

/// The declaration of a variable behind its `var`: the name; the
/// initializer, or `nil` in its place; a `;`; and the definition.
#[verifier::opaque]
pub open spec fn var_declaration(source: Seq<char>, s: State) -> State
    decreases rest(source, s), 5int,
{
    let s1 = declared(source, s, "Expect variable name."@);
    let valued = if s1.current.token_type == TokenType::Equal {
        let s2 = advance(source, s1);
        if rest(source, s2) <= rest(source, s) {
            expression(source, s2)
        } else {
            s2
        }
    } else {
        emit_op(s1, OpCode::Nil)
    };
    defined(
        expect(source, valued, TokenType::Semicolon, "Expect ';' variable declaration."@),
        next_index(named(source, s, "Expect variable name."@)),
    )
}

/// A declaration: of a variable, or a statement. After an error the
/// reading goes on where the next statement is likely to begin.
#[verifier::opaque]
pub open spec fn declaration(source: Seq<char>, s: State) -> State
    decreases rest(source, s), 12int,
{
    let done = if s.current.token_type == TokenType::Var {
        let s1 = advance(source, s);
        if rest(source, s1) < rest(source, s) {
            var_declaration(source, s1)
        } else {
            s1
        }
    } else {
        statement(source, s)
    };
    if done.panic_mode {
        synchronise(source, done)
    } else {
        done
    }
}

/// The declarations of a block up to its closing brace.
#[verifier::opaque]
pub open spec fn block(source: Seq<char>, s: State) -> State
    decreases rest(source, s), 13int,
{
    if s.current.token_type != TokenType::RightBrace && s.current.token_type != TokenType::EOF {
        let s1 = declaration(source, s);
        if rest(source, s1) < rest(source, s) {
            block(source, s1)
        } else {
            s1
        }
    } else {
        expect(source, s, TokenType::RightBrace, "Expect '}' after block."@)
    }
}

/// An expression, a `;`, and an instruction that takes the value of the
/// expression off the stack: `Pop`, or `Print`.
#[verifier::opaque]
pub open spec fn expression_statement(source: Seq<char>, s: State, op: OpCode) -> State
    decreases rest(source, s), 5int,
{
    emit_op(
        expect(
            source,
            expression(source, s),
            TokenType::Semicolon,
            if op == OpCode::Print {
                "Expect ';' after value."@
            } else {
                "Expect ';' after expression."@
            },
        ),
        op,
    )
}

/// A statement.
#[verifier::opaque]
pub open spec fn statement(source: Seq<char>, s: State) -> State
    decreases rest(source, s), 7int,
{
    let kind = s.current.token_type;
    if kind == TokenType::Print || kind == TokenType::If || kind == TokenType::While || kind
        == TokenType::For || kind == TokenType::LeftBrace {
        let s1 = advance(source, s);
        if rest(source, s1) < rest(source, s) {
            if kind == TokenType::Print {
                expression_statement(source, s1, OpCode::Print)
            } else if kind == TokenType::If {
                if_statement(source, s1)
            } else if kind == TokenType::While {
                while_statement(source, s1)
            } else if kind == TokenType::For {
                for_statement(source, s1)
            } else {
                scoped_block(source, s1)
            }
        } else {
            s1
        }
    } else {
        expression_statement(source, s, OpCode::Pop)
    }
}

/// A condition in parentheses, the jump that skips what depends on it, and
/// the `Pop` that drops the condition where it holds. `opening` is the
/// message of the error for a missing `(`.
#[verifier::opaque]
pub open spec fn condition(source: Seq<char>, s: State, opening: Seq<char>) -> State
    decreases rest(source, s), 5int,
{
    let s1 = expect(source, s, TokenType::LeftParen, opening);
    if rest(source, s1) <= rest(source, s) {
        emit_op(
            emit_jump(
                expect(
                    source,
                    expression(source, s1),
                    TokenType::RightParen,
                    "Expect ')' after condition."@,
                ),
                OpCode::JumpIfFalse,
            ),
            OpCode::Pop,
        )
    } else {
        s1
    }
}

/// The `else` branch of an `if` statement, if it has one.
#[verifier::opaque]
pub open spec fn otherwise(source: Seq<char>, s: State) -> State
    decreases rest(source, s), 8int,
{
    if s.current.token_type == TokenType::Else {
        let s1 = advance(source, s);
        if rest(source, s1) < rest(source, s) {
            statement(source, s1)
        } else {
            s1
        }
    } else {
        s
    }
}

/// The part of an `if` statement that is compiled before its `else`
/// branch: the condition; the statement that depends on it; the jump over
/// the `else` branch; and the `Pop` with which that branch begins, where the
/// jump of the condition lands.
#[verifier::opaque]
pub open spec fn consequent(source: Seq<char>, s: State) -> State
    decreases rest(source, s), 8int,
{
    let s1 = condition(source, s, "Expect '(' after 'if'."@);
    if rest(source, s1) <= rest(source, s) {
        emit_op(
            patch(emit_jump(statement(source, s1), OpCode::Jump), s1.code.len() - 4),
            OpCode::Pop,
        )
    } else {
        s1
    }
}

/// An `if` statement behind its keyword: what comes before the `else`
/// branch; that branch, if there is one; and the landing of the jump over
/// it.
#[verifier::opaque]
pub open spec fn if_statement(source: Seq<char>, s: State) -> State
    decreases rest(source, s), 9int,
{
    let s1 = consequent(source, s);
    if rest(source, s1) <= rest(source, s) {
        patch(otherwise(source, s1), s1.code.len() - 4)
    } else {
        s1
    }
}

/// A `while` statement behind its keyword.
#[verifier::opaque]
pub open spec fn while_statement(source: Seq<char>, s: State) -> State
    decreases rest(source, s), 9int,
{
    let s1 = condition(source, s, "Expect '(' after 'while'."@);
    if rest(source, s1) <= rest(source, s) {
        emit_op(
            patch(emit_loop(statement(source, s1), s.code.len() as int), s1.code.len() - 4),
            OpCode::Pop,
        )
    } else {
        s1
    }
}

/// The initializer of a `for` statement: nothing, the declaration of the
/// loop variable, or an expression.
#[verifier::opaque]
pub open spec fn for_initializer(source: Seq<char>, s: State) -> State
    decreases rest(source, s), 6int,
{
    if s.current.token_type == TokenType::Semicolon {
        advance(source, s)
    } else if s.current.token_type == TokenType::Var {
        let s1 = advance(source, s);
        if rest(source, s1) <= rest(source, s) {
            var_declaration(source, s1)
        } else {
            s1
        }
    } else {
        expression_statement(source, s, OpCode::Pop)
    }
}

/// The condition of a `for` statement, if it has one.
#[verifier::opaque]
pub open spec fn for_condition(source: Seq<char>, s: State) -> State
    decreases rest(source, s), 6int,
{
    if s.current.token_type == TokenType::Semicolon {
        advance(source, s)
    } else {
        emit_op(
            emit_jump(
                expect(
                    source,
                    expression(source, s),
                    TokenType::Semicolon,
                    "Expect ';' after loop condition."@,
                ),
                OpCode::JumpIfFalse,
            ),
            OpCode::Pop,
        )
    }
}

/// The increment of a `for` statement, if it has one: the jump over it into
/// the body, the expression, and the loop back to `start`.
#[verifier::opaque]
pub open spec fn for_increment(source: Seq<char>, s: State, start: int) -> State
    decreases rest(source, s), 6int,
{
    if s.current.token_type == TokenType::RightParen {
        advance(source, s)
    } else {
        patch(
            emit_loop(
                expect(
                    source,
                    emit_op(expression(source, emit_jump(s, OpCode::Jump)), OpCode::Pop),
                    TokenType::RightParen,
                    "Expect ')' after for clauses."@,
                ),
                start,
            ),
            s.code.len() as int,
        )
    }
}

/// The body of a `for` statement: the statement, the loop back to
/// `start`, and, if the loop has a condition, the landing of the jump at
/// `exit` that leaves the loop and the `Pop` that drops the condition.
#[verifier::opaque]
pub open spec fn for_body(source: Seq<char>, s: State, start: int, exit: Option<int>) -> State
    decreases rest(source, s), 8int,
{
    let looped = emit_loop(statement(source, s), start);
    match exit {
        Some(at) => emit_op(patch(looped, at), OpCode::Pop),
        None => looped,
    }
}

/// The clauses of a `for` statement, compiled.
pub struct Clauses {
    /// The state behind the `)`.
    pub state: State,
    /// Where the body loops back to: the increment, or the condition if
    /// there is no increment.
    pub start: int,
    /// Where the jump stands that leaves the loop, if the loop has a
    /// condition.
    pub exit: Option<int>,
}

/// The clauses of a `for` statement behind its `(`: initializer, condition
/// and increment.
#[verifier::opaque]
pub open spec fn for_clauses(source: Seq<char>, s: State) -> Clauses
    decreases rest(source, s), 7int,
{
    let s1 = for_initializer(source, s);
    let s2 = if rest(source, s1) <= rest(source, s) {
        for_condition(source, s1)
    } else {
        s1
    };
    let s3 = if rest(source, s2) <= rest(source, s) {
        for_increment(source, s2, s1.code.len() as int)
    } else {
        s2
    };
    Clauses {
        state: s3,
        start: if s2.current.token_type == TokenType::RightParen {
            s1.code.len() as int
        } else {
            s2.code.len() as int + 3
        },
        exit: if s1.current.token_type != TokenType::Semicolon {
            Some(s2.code.len() - 4)
        } else {
            None
        },
    }
}

/// A `for` statement behind its keyword. The loop variable lives in a
/// scope of its own, which ends with the statement.
#[verifier::opaque]
pub open spec fn for_statement(source: Seq<char>, s: State) -> State
    decreases rest(source, s), 9int,
{
    let s1 = expect(
        source,
        State { depth: s.depth.deeper(1), ..s },
        TokenType::LeftParen,
        "Expect '(' after 'for'."@,
    );
    if rest(source, s1) <= rest(source, s) {
        let c = for_clauses(source, s1);
        if rest(source, c.state) <= rest(source, s) {
            end_scope(for_body(source, c.state, c.start, c.exit))
        } else {
            c.state
        }
    } else {
        s1
    }
}

/// A block behind its `{`: a scope of its own with the declarations of the
/// block.
#[verifier::opaque]
pub open spec fn scoped_block(source: Seq<char>, s: State) -> State
    decreases rest(source, s), 14int,
{
    end_scope(block(source, State { depth: s.depth.deeper(1), ..s }))
}

// ---------------------------------------------------------------------------
// Programs.
// ---------------------------------------------------------------------------
/// The declarations of a program up to the end of the source.
#[verifier::opaque]
pub open spec fn declarations(source: Seq<char>, s: State) -> State
    decreases rest(source, s), 15int,
{
    if s.current.token_type == TokenType::EOF {
        advance(source, s)
    } else {
        let s1 = declaration(source, s);
        if rest(source, s1) < rest(source, s) {
            declarations(source, s1)
        } else {
            s1
        }
    }
}

/// The chunk of a program.
pub struct Program {
    pub code: Seq<u8>,
    pub lines: Seq<i32>,
    pub pool: Seq<Constant>,
}

/// The compilation of a source from its first token to a final `Return`.
pub open spec fn compiled(source: Seq<char>) -> State {
    emit_op(declarations(source, advance(source, initial())), OpCode::Return)
}

/// What a source compiles to: the code that was emitted, if no error was
/// found; else the errors that were recorded.
pub open spec fn program(source: Seq<char>) -> Result<Program, Seq<Failure>> {
    let end = compiled(source);
    if end.had_error {
        Err(end.errors)
    } else {
        Ok(Program { code: end.code, lines: end.lines, pool: end.pool })
    }
}

} // verus!
