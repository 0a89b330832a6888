//! The single-pass compiler: the state of the parser, the reading of
//! tokens, the emission of code, the bookkeeping of lexical scopes, and
//! `compile`. Expressions and statements are compiled in modules of their
//! own.
use crate::chunk::{Chunk, OpCode};
use crate::layout::{
    balanced, is_backward_jump, is_forward_jump, is_instruction, jump_target, lands,
    lemma_after_of, lemma_reaches_patch, lemma_typed_append, lemma_typed_land, lemma_typed_mark,
    lemma_typed_pool, operand16, operand_fits, reaches, stack_needs, typed, well_formed, Typing,
};
use crate::program;
use crate::program::{repeated, Constant, Failure, State, Variable};
use crate::scanner::{
    after_trivia, keyword, lemma_after_trivia_bounds, lemma_after_trivia_stops,
    lemma_lexeme_end_bounds, lemma_newlines_split, lemma_quote_at_bounds, lexeme_end, lexeme_kind,
    newlines, word_end, Lexed, Lexeme, Scanner, Token, TokenType,
};
use crate::statements::{declaration, lemma_no_locals_outside, settled};
use crate::value::Value;
use crate::RoxError;
use vstd::prelude::*;
use vstd::string::*;

verus! {

// ---------------------------------------------------------------------------
// Precedence and the table of parse rules.
// ---------------------------------------------------------------------------
/// Binding strength of operators, weakest first.
#[derive(PartialEq, Eq, Structural, Copy, Clone, Debug)]
pub enum Precedence {
    Lowest,
    Assignment,  // =
    Or,  // or
    And,  // and
    Equality,  // == !=
    Comparison,  // < > <= >=
    Term,  // + -
    Factor,  // * /
    Unary,  // ! -
    Call,  // . ()
    Primary,
}

impl Precedence {
    /// The position of the level, 0 for the weakest.
    pub open spec fn level(self) -> int {
        match self {
            Precedence::Lowest => 0,
            Precedence::Assignment => 1,
            Precedence::Or => 2,
            Precedence::And => 3,
            Precedence::Equality => 4,
            Precedence::Comparison => 5,
            Precedence::Term => 6,
            Precedence::Factor => 7,
            Precedence::Unary => 8,
            Precedence::Call => 9,
            Precedence::Primary => 10,
        }
    }

    /// The level one above this one; `Primary` for `Primary`.
    pub open spec fn stronger(self) -> Precedence {
        match self {
            Precedence::Lowest => Precedence::Assignment,
            Precedence::Assignment => Precedence::Or,
            Precedence::Or => Precedence::And,
            Precedence::And => Precedence::Equality,
            Precedence::Equality => Precedence::Comparison,
            Precedence::Comparison => Precedence::Term,
            Precedence::Term => Precedence::Factor,
            Precedence::Factor => Precedence::Unary,
            Precedence::Unary => Precedence::Call,
            _ => Precedence::Primary,
        }
    }

    /// The next stronger level. `Primary` has none.
    pub fn next(&self) -> (stronger: Precedence)
        requires
            *self != Precedence::Primary,
        ensures
            stronger == self.stronger(),
            stronger.level() == self.level() + 1,
    {
        match self {
            Precedence::Lowest => Precedence::Assignment,
            Precedence::Assignment => Precedence::Or,
            Precedence::Or => Precedence::And,
            Precedence::And => Precedence::Equality,
            Precedence::Equality => Precedence::Comparison,
            Precedence::Comparison => Precedence::Term,
            Precedence::Term => Precedence::Factor,
            Precedence::Factor => Precedence::Unary,
            Precedence::Unary => Precedence::Call,
            _ => Precedence::Primary,
        }
    }

    fn index(self) -> (i: u8)
        ensures
            i == self.level(),
    {
        match self {
            Precedence::Lowest => 0,
            Precedence::Assignment => 1,
            Precedence::Or => 2,
            Precedence::And => 3,
            Precedence::Equality => 4,
            Precedence::Comparison => 5,
            Precedence::Term => 6,
            Precedence::Factor => 7,
            Precedence::Unary => 8,
            Precedence::Call => 9,
            Precedence::Primary => 10,
        }
    }

    /// Whether this level binds at most as strongly as `other`.
    pub fn at_most(self, other: Precedence) -> (r: bool)
        ensures
            r == (self.level() <= other.level()),
    {
        self.index() <= other.index()
    }
}

/// The handlers that compile an expression, named by what they compile.
#[derive(PartialEq, Eq, Structural, Copy, Clone, Debug)]
pub enum Handler {
    Grouping,
    Unary,
    Binary,
    Variable,
    Text,
    Number,
    Literal,
    And,
    Or,
}

/// What to do with a token: how to compile an expression that starts with it,
/// how to go on with one that has it as an operator, and how strongly that
/// operator binds.
#[derive(Copy, Clone, Debug)]
pub struct ParseRule {
    pub prefix: Option<Handler>,
    pub infix: Option<Handler>,
    pub precedence: Precedence,
}

/// The table of parse rules.
pub open spec fn rule_of(token_type: TokenType) -> ParseRule {
    match token_type {
        TokenType::LeftParen => ParseRule {
            prefix: Some(Handler::Grouping),
            infix: None,
            precedence: Precedence::Lowest,
        },
        TokenType::Minus => ParseRule {
            prefix: Some(Handler::Unary),
            infix: Some(Handler::Binary),
            precedence: Precedence::Term,
        },
        TokenType::Plus => ParseRule {
            prefix: None,
            infix: Some(Handler::Binary),
            precedence: Precedence::Term,
        },
        TokenType::Slash | TokenType::Star => ParseRule {
            prefix: None,
            infix: Some(Handler::Binary),
            precedence: Precedence::Factor,
        },
        TokenType::Bang => ParseRule {
            prefix: Some(Handler::Unary),
            infix: None,
            precedence: Precedence::Lowest,
        },
        TokenType::BangEqual | TokenType::EqualEqual => ParseRule {
            prefix: None,
            infix: Some(Handler::Binary),
            precedence: Precedence::Equality,
        },
        TokenType::Greater
        | TokenType::GreaterEqual
        | TokenType::Less
        | TokenType::LessEqual => ParseRule {
            prefix: None,
            infix: Some(Handler::Binary),
            precedence: Precedence::Comparison,
        },
        TokenType::Identifier => ParseRule {
            prefix: Some(Handler::Variable),
            infix: None,
            precedence: Precedence::Lowest,
        },
        TokenType::RoxString => ParseRule {
            prefix: Some(Handler::Text),
            infix: None,
            precedence: Precedence::Lowest,
        },
        TokenType::Number => ParseRule {
            prefix: Some(Handler::Number),
            infix: None,
            precedence: Precedence::Lowest,
        },
        TokenType::And => ParseRule {
            prefix: None,
            infix: Some(Handler::And),
            precedence: Precedence::And,
        },
        TokenType::Or => ParseRule {
            prefix: None,
            infix: Some(Handler::Or),
            precedence: Precedence::Or,
        },
        TokenType::False | TokenType::Nil | TokenType::True => ParseRule {
            prefix: Some(Handler::Literal),
            infix: None,
            precedence: Precedence::Lowest,
        },
        _ => ParseRule { prefix: None, infix: None, precedence: Precedence::Lowest },
    }
}

/// Looks a token kind up in the table of parse rules.
pub fn get_rule(token_type: TokenType) -> (rule: ParseRule)
    ensures
        rule == rule_of(token_type),
{
    match token_type {
        TokenType::LeftParen => ParseRule {
            prefix: Some(Handler::Grouping),
            infix: None,
            precedence: Precedence::Lowest,
        },
        TokenType::Minus => ParseRule {
            prefix: Some(Handler::Unary),
            infix: Some(Handler::Binary),
            precedence: Precedence::Term,
        },
        TokenType::Plus => ParseRule {
            prefix: None,
            infix: Some(Handler::Binary),
            precedence: Precedence::Term,
        },
        TokenType::Slash | TokenType::Star => ParseRule {
            prefix: None,
            infix: Some(Handler::Binary),
            precedence: Precedence::Factor,
        },
        TokenType::Bang => ParseRule {
            prefix: Some(Handler::Unary),
            infix: None,
            precedence: Precedence::Lowest,
        },
        TokenType::BangEqual | TokenType::EqualEqual => ParseRule {
            prefix: None,
            infix: Some(Handler::Binary),
            precedence: Precedence::Equality,
        },
        TokenType::Greater
        | TokenType::GreaterEqual
        | TokenType::Less
        | TokenType::LessEqual => ParseRule {
            prefix: None,
            infix: Some(Handler::Binary),
            precedence: Precedence::Comparison,
        },
        TokenType::Identifier => ParseRule {
            prefix: Some(Handler::Variable),
            infix: None,
            precedence: Precedence::Lowest,
        },
        TokenType::RoxString => ParseRule {
            prefix: Some(Handler::Text),
            infix: None,
            precedence: Precedence::Lowest,
        },
        TokenType::Number => ParseRule {
            prefix: Some(Handler::Number),
            infix: None,
            precedence: Precedence::Lowest,
        },
        TokenType::And => ParseRule {
            prefix: None,
            infix: Some(Handler::And),
            precedence: Precedence::And,
        },
        TokenType::Or => ParseRule {
            prefix: None,
            infix: Some(Handler::Or),
            precedence: Precedence::Or,
        },
        TokenType::False | TokenType::Nil | TokenType::True => ParseRule {
            prefix: Some(Handler::Literal),
            infix: None,
            precedence: Precedence::Lowest,
        },
        _ => ParseRule { prefix: None, infix: None, precedence: Precedence::Lowest },
    }
}

/// Every token that binds at all has an infix handler, and the end of the
/// source binds nothing.
pub proof fn lemma_operators_have_handlers(token_type: TokenType)
    ensures
        rule_of(token_type).precedence != Precedence::Lowest ==> rule_of(token_type).infix is Some,
        rule_of(token_type).precedence != Precedence::Primary,
        rule_of(TokenType::EOF).precedence == Precedence::Lowest,
        rule_of(TokenType::EOF).prefix is None,
{
}

// ---------------------------------------------------------------------------
// Lexical scopes.
// ---------------------------------------------------------------------------
/// How deeply a scope is nested, with two sentinels: a local that is declared
/// but whose initializer is still being compiled is `Uninitialised`, and the
/// top level of a program is `Global`.
#[derive(PartialEq, Eq, Structural, Copy, Clone, Debug)]
pub enum Depth {
    Uninitialised,
    Global,
    Block(usize),
}

impl Depth {
    /// The position of the depth in the order
    /// `Uninitialised < Global < Block(0) < Block(1) < ...`.
    pub open spec fn rank(self) -> int {
        match self {
            Depth::Uninitialised => 0,
            Depth::Global => 1,
            Depth::Block(n) => n + 2,
        }
    }

    /// The depth `rhs` scopes further in.
    pub open spec fn deeper(self, rhs: int) -> Depth {
        match self {
            Depth::Block(d) => Depth::Block((d + rhs) as usize),
            _ => Depth::Block(rhs as usize),
        }
    }

    /// The depth `rhs` scopes further out: leaving the outermost block gives
    /// `Global`, and leaving what is no block gives `Uninitialised`.
    pub open spec fn shallower(self, rhs: int) -> Depth {
        match self {
            Depth::Block(d) => if rhs >= d {
                Depth::Global
            } else {
                Depth::Block((d - rhs) as usize)
            },
            _ => Depth::Uninitialised,
        }
    }

    pub fn add_assign(&mut self, rhs: usize)
        requires
            *old(self) matches Depth::Block(d) ==> d + rhs <= usize::MAX,
        ensures
            *final(self) == old(self).deeper(rhs as int),
    {
        *self = match *self {
            Depth::Block(d) => Depth::Block(d + rhs),
            _ => Depth::Block(rhs),
        }
    }

    pub fn sub_assign(&mut self, rhs: usize)
        ensures
            *final(self) == old(self).shallower(rhs as int),
    {
        *self = match *self {
            Depth::Block(d) => if rhs >= d {
                Depth::Global
            } else {
                Depth::Block(d - rhs)
            },
            _ => Depth::Uninitialised,
        }
    }

    /// Whether this depth comes before `other` in the order of depths.
    pub fn below(self, other: Depth) -> (r: bool)
        ensures
            r == (self.rank() < other.rank()),
    {
        match self {
            Depth::Uninitialised => match other {
                Depth::Uninitialised => false,
                _ => true,
            },
            Depth::Global => match other {
                Depth::Block(_) => true,
                _ => false,
            },
            Depth::Block(a) => match other {
                Depth::Block(b) => a < b,
                _ => false,
            },
        }
    }
}

/// A local variable: the token that names it and the depth of its scope.
pub struct Local {
    pub name: Token,
    pub depth: Depth,
}

impl Clone for Local {
    fn clone(&self) -> (local: Local)
        ensures
            local.name@ == self.name@,
            local.depth == self.depth,
    {
        Local { name: self.name.clone(), depth: self.depth }
    }
}

/// The most locals a program may have alive at once: a slot is one byte.
pub const MAX_LOCALS: usize = 256;

/// The scope state of a compilation: the locals that are alive, innermost
/// last, and the depth of the scope being compiled. The position of a local
/// in `locals` is its slot on the stack of the machine.
pub struct Compiler {
    pub locals: Vec<Local>,
    pub scope_depth: Depth,
}

/// How many of `locals` stay when the scopes deeper than `depth` end: the
/// locals at the back that are deeper than `depth` go.
pub open spec fn kept(locals: Seq<Local>, depth: Depth) -> nat
    decreases locals.len(),
{
    if locals.len() > 0 && locals.last().depth.rank() > depth.rank() {
        kept(locals.drop_last(), depth)
    } else {
        locals.len()
    }
}

/// Whether a local of the scope at `depth` (or one whose initializer is being
/// compiled) already has the name `name`: the locals are searched from the
/// back up to the first that belongs to an enclosing scope.
pub open spec fn clashes(locals: Seq<Local>, name: Seq<char>, depth: Depth) -> bool
    decreases locals.len(),
{
    if locals.len() == 0 {
        false
    } else {
        let l = locals.last();
        if l.depth != Depth::Uninitialised && l.depth.rank() < depth.rank() {
            false
        } else if l.name.lexeme@ == name {
            true
        } else {
            clashes(locals.drop_last(), name, depth)
        }
    }
}

/// The slot of the innermost local named `name`, if there is one.
pub open spec fn lookup(locals: Seq<Local>, name: Seq<char>) -> Option<int>
    decreases locals.len(),
{
    if locals.len() == 0 {
        None
    } else if locals.last().name.lexeme@ == name {
        Some(locals.len() - 1)
    } else {
        lookup(locals.drop_last(), name)
    }
}

pub proof fn lemma_kept_bound(locals: Seq<Local>, depth: Depth)
    ensures
        kept(locals, depth) <= locals.len(),
    decreases locals.len(),
{
    if locals.len() > 0 && locals.last().depth.rank() > depth.rank() {
        lemma_kept_bound(locals.drop_last(), depth);
    }
}

/// A slot that `lookup` finds holds a local of that name, and no local
/// behind it has the name.
pub proof fn lemma_lookup_innermost(locals: Seq<Local>, name: Seq<char>)
    ensures
        match lookup(locals, name) {
            Some(i) => {
                &&& 0 <= i < locals.len()
                &&& locals[i].name.lexeme@ == name
                &&& forall|j: int| i < j < locals.len() ==> locals[j].name.lexeme@ != name
            },
            None => forall|j: int| 0 <= j < locals.len() ==> locals[j].name.lexeme@ != name,
        },
    decreases locals.len(),
{
    if locals.len() > 0 && locals.last().name.lexeme@ != name {
        lemma_lookup_innermost(locals.drop_last(), name);
        assert forall|j: int| 0 <= j < locals.len() - 1 implies locals[j]
            == locals.drop_last()[j] by {}
    }
}

impl Compiler {
    pub fn new() -> (compiler: Compiler)
        ensures
            compiler.locals@ == Seq::<Local>::empty(),
            compiler.scope_depth == Depth::Global,
    {
        Compiler { locals: Vec::new(), scope_depth: Depth::Global }
    }

    /// Enters a scope.
    pub fn begin_scope(&mut self)
        requires
            old(self).scope_depth matches Depth::Block(d) ==> d < usize::MAX,
        ensures
            final(self).scope_depth == old(self).scope_depth.deeper(1),
            final(self).locals@ == old(self).locals@,
    {
        self.scope_depth.add_assign(1);
    }

    /// Leaves a scope: the locals of the scope go, and for each of them a
    /// `Pop` is emitted that takes its value off the stack at run time.
    pub fn end_scope(&mut self, parser: &mut Parser)
        ensures
            final(self).scope_depth == old(self).scope_depth.shallower(1),
            final(self).locals@ == old(self).locals@.take(
                kept(old(self).locals@, final(self).scope_depth) as int,
            ),
            final(parser).same_but_chunk(old(parser)),
            final(parser).current_chunk.constants@ == old(parser).current_chunk.constants@,
            final(parser).current_chunk.code@ == old(parser).current_chunk.code@ + repeated(
                OpCode::Pop.to_byte(),
                (old(self).locals@.len() - final(self).locals@.len()) as nat,
            ),
            final(parser).current_chunk.lines@ == old(parser).current_chunk.lines@ + repeated(
                old(parser).previous.line,
                (old(self).locals@.len() - final(self).locals@.len()) as nat,
            ),
    {
        self.scope_depth.sub_assign(1);

        let ghost popped: nat = 0;
        while self.locals.len() > 0 && self.scope_depth.below(
            self.locals[self.locals.len() - 1].depth,
        )
            invariant
                self.scope_depth == old(self).scope_depth.shallower(1),
                popped + self.locals@.len() == old(self).locals@.len(),
                self.locals@ == old(self).locals@.take(self.locals@.len() as int),
                kept(self.locals@, self.scope_depth) == kept(old(self).locals@, self.scope_depth),
                parser.same_but_chunk(old(parser)),
                parser.current_chunk.constants@ == old(parser).current_chunk.constants@,
                parser.current_chunk.code@ == old(parser).current_chunk.code@ + repeated(
                    OpCode::Pop.to_byte(),
                    popped,
                ),
                parser.current_chunk.lines@ == old(parser).current_chunk.lines@ + repeated(
                    old(parser).previous.line,
                    popped,
                ),
            decreases self.locals@.len(),
        {
            let ghost code_before = parser.current_chunk.code@;
            let ghost lines_before = parser.current_chunk.lines@;
            parser.emit_byte(OpCode::Pop.byte());
            self.locals.pop();
            proof {
                assert(self.locals@ =~= old(self).locals@.take(self.locals@.len() as int));
                assert(parser.current_chunk.code@ =~= old(parser).current_chunk.code@
                    + repeated(OpCode::Pop.to_byte(), popped + 1));
                assert(parser.current_chunk.lines@ =~= old(parser).current_chunk.lines@
                    + repeated(old(parser).previous.line, popped + 1));
                popped = popped + 1;
            }
        }
        proof {
            assert(parser.current_chunk.code@ =~= old(parser).current_chunk.code@ + repeated(
                OpCode::Pop.to_byte(),
                popped,
            ));
        }
    }

    /// Declares the variable named by the token the parser has just read. At
    /// the top level nothing is declared: globals are found by name at run
    /// time. In a block the name must be new to the scope; the local is then
    /// added, still uninitialised.
    pub fn declare_variable(&mut self, parser: &mut Parser) -> (result: Result<(), RoxError>)
        ensures
            final(self).scope_depth == old(self).scope_depth,
            *final(parser) == *old(parser),
            old(self).scope_depth == Depth::Global ==> result is Ok && final(self).locals@ == old(
                self,
            ).locals@,
            old(self).scope_depth != Depth::Global && clashes(
                old(self).locals@,
                old(parser).previous.lexeme@,
                old(self).scope_depth,
            ) ==> {
                &&& final(self).locals@ == old(self).locals@
                &&& result is Err
                &&& result->Err_0.matches(
                    "Variable with this name already declared in this scope."@,
                    old(parser).previous.lexeme@,
                    old(parser).previous.line as int,
                )
            },
            old(self).scope_depth != Depth::Global && !clashes(
                old(self).locals@,
                old(parser).previous.lexeme@,
                old(self).scope_depth,
            ) ==> added(old(self).locals@, final(self).locals@, old(parser).previous, result),
    {
        //Global variables are implicitly declared.
        if self.scope_depth == Depth::Global {
            return Ok(());
        }
        let name = parser.previous.clone();

        proof {
            assert(self.locals@.take(self.locals@.len() as int) =~= self.locals@);
        }
        let mut i = self.locals.len();
        let mut searching = true;
        while searching && i > 0
            invariant
                i <= self.locals@.len(),
                self.locals@ == old(self).locals@,
                self.scope_depth == old(self).scope_depth,
                self.scope_depth != Depth::Global,
                name.lexeme@ == old(parser).previous.lexeme@,
                name.line == old(parser).previous.line,
                name.token_type == old(parser).previous.token_type,
                *parser == *old(parser),
                searching ==> clashes(self.locals@.take(i as int), name.lexeme@, self.scope_depth)
                    == clashes(self.locals@, name.lexeme@, self.scope_depth),
                !searching ==> !clashes(self.locals@, name.lexeme@, self.scope_depth),
            decreases i + if searching {
                1int
            } else {
                0int
            },
        {
            let ghost upto = self.locals@.take(i as int);
            assert(upto.last() == self.locals@[i - 1]);
            assert(upto.drop_last() =~= self.locals@.take(i - 1));
            let l = &self.locals[i - 1];
            if l.depth != Depth::Uninitialised && l.depth.below(self.scope_depth) {
                searching = false;
            } else if l.name.lexeme == name.lexeme {
                return Err(
                    RoxError::new(
                        "Variable with this name already declared in this scope.",
                        name.lexeme.clone(),
                        name.line,
                    ),
                );
            } else {
                i -= 1;
            }
        }

        self.add_local(name)
    }

    /// Adds a local that is still uninitialised, unless the limit is reached.
    pub fn add_local(&mut self, name: Token) -> (result: Result<(), RoxError>)
        ensures
            final(self).scope_depth == old(self).scope_depth,
            added(old(self).locals@, final(self).locals@, name, result),
    {
        if self.locals.len() > 255 {
            Err(RoxError::new("Too many local variables in function.", name.lexeme, name.line))
        } else {
            let local = Local { name, depth: Depth::Uninitialised };

            self.locals.push(local);
            proof {
                assert(self.locals@.drop_last() =~= old(self).locals@);
            }
            Ok(())
        }
    }

    /// Finds the slot of the innermost local with the name of `name`. A name
    /// that no local has is not an error: it is taken to be a global. A local
    /// that is still uninitialised is being read in its own initializer.
    pub fn resolve_local(&self, name: &Token) -> (result: Result<Option<u8>, RoxError>)
        ensures
            match lookup(self.locals@, name.lexeme@) {
                None => result is Ok && result->Ok_0 is None,
                Some(i) => if self.locals@[i].depth == Depth::Uninitialised {
                    &&& result is Err
                    &&& result->Err_0.matches(
                        "Cannot read local variable in its own initializer."@,
                        self.locals@[i].name.lexeme@,
                        self.locals@[i].name.line as int,
                    )
                } else {
                    &&& result is Ok
                    &&& result->Ok_0 is Some
                    &&& result->Ok_0->0 == i % 256
                },
            },
    {
        proof {
            assert(self.locals@.take(self.locals@.len() as int) =~= self.locals@);
        }
        let mut i = self.locals.len();
        while i > 0
            invariant
                i <= self.locals@.len(),
                lookup(self.locals@.take(i as int), name.lexeme@) == lookup(
                    self.locals@,
                    name.lexeme@,
                ),
            decreases i,
        {
            let ghost upto = self.locals@.take(i as int);
            assert(upto.last() == self.locals@[i - 1]);
            assert(upto.drop_last() =~= self.locals@.take(i - 1));
            let l = &self.locals[i - 1];
            if l.name.lexeme == name.lexeme {
                return if l.depth == Depth::Uninitialised {
                    Err(
                        RoxError::new(
                            "Cannot read local variable in its own initializer.",
                            l.name.lexeme.clone(),
                            l.name.line,
                        ),
                    )
                } else {
                    Ok(Some(((i - 1) % 256) as u8))
                };
            }
            i -= 1;
        }

        Ok(None)
    }
}

/// The outcome of adding a local named by `name`: with 256 locals alive the
/// limit is reached, otherwise the local is appended, uninitialised.
pub open spec fn added(
    before: Seq<Local>,
    after: Seq<Local>,
    name: Token,
    result: Result<(), RoxError>,
) -> bool {
    if before.len() >= MAX_LOCALS {
        &&& after == before
        &&& result is Err
        &&& result->Err_0.matches(
            "Too many local variables in function."@,
            name.lexeme@,
            name.line as int,
        )
    } else {
        &&& result is Ok
        &&& after.len() == before.len() + 1
        &&& after.drop_last() == before
        &&& after.last().name.lexeme@ == name.lexeme@
        &&& after.last().name.line == name.line
        &&& after.last().name.token_type == name.token_type
        &&& after.last().depth == Depth::Uninitialised
    }
}

// ---------------------------------------------------------------------------
// The parser state and code emission.
// ---------------------------------------------------------------------------
/// The state of the parser: the token being looked at and the one before it,
/// the chunk that is being filled, and the error flags. `errors` holds the
/// diagnostics that were reported, in order; while `panic_mode` is set,
/// further errors are swallowed.
pub struct Parser {
    pub current: Token,
    pub previous: Token,
    pub current_chunk: Chunk,
    pub had_error: bool,
    pub panic_mode: bool,
    pub errors: Vec<RoxError>,
    /// What the code emitted so far expects when it runs: the height of the
    /// stack in front of every instruction and behind the last one, and
    /// which constants are strings.
    pub typing: Ghost<Typing>,
}

/// The placeholder that stands for the distance of a jump until it is patched.
pub const PLACEHOLDER: u8 = 0xFFu8;

/// The longest distance that a jump can encode.
pub const MAX_JUMP: usize = 65535;

impl Parser {
    /// Everything but the chunk is as in `other`.
    pub open spec fn same_but_chunk(&self, other: &Parser) -> bool {
        &&& self.current == other.current
        &&& self.previous == other.previous
        &&& self.had_error == other.had_error
        &&& self.panic_mode == other.panic_mode
        &&& self.errors@ == other.errors@
        &&& self.typing@ == other.typing@
    }

    /// Everything but the error state is as in `other`.
    pub open spec fn same_but_errors(&self, other: &Parser) -> bool {
        &&& self.current == other.current
        &&& self.previous == other.previous
        &&& self.current_chunk.same(&other.current_chunk)
        &&& self.typing@ == other.typing@
    }

    /// The error state after `before` has been told of an error with this
    /// message at this token: in panic mode nothing changes; otherwise the
    /// error is recorded and panic mode begins.
    pub open spec fn told(
        &self,
        before: &Parser,
        message: Seq<char>,
        token: Seq<char>,
        line: int,
    ) -> bool {
        if before.panic_mode {
            &&& self.had_error == before.had_error
            &&& self.panic_mode
            &&& self.errors@ == before.errors@
        } else {
            &&& self.had_error
            &&& self.panic_mode
            &&& self.errors@.len() == before.errors@.len() + 1
            &&& self.errors@.drop_last() == before.errors@
            &&& self.errors@.last().matches(message, token, line)
            &&& self.keeps_errors(before)
            &&& failures(self.errors@) == failures(before.errors@).push(
                Failure { message, token, line },
            )
        }
    }

    /// No error is forgotten: once there is an error, there is one, and the
    /// first stays the first.
    pub open spec fn keeps_errors(&self, before: &Parser) -> bool {
        &&& before.had_error ==> self.had_error
        &&& before.errors@.len() > 0 ==> self.errors@.len() > 0 && self.errors@[0]
            == before.errors@[0]
    }

    pub fn new() -> (parser: Parser)
        ensures
            parser.current.token_type == TokenType::EOF,
            parser.current.lexeme@ == Seq::<char>::empty(),
            parser.current.line == 0,
            parser.previous.token_type == TokenType::EOF,
            parser.previous.lexeme@ == Seq::<char>::empty(),
            parser.previous.line == 0,
            parser.current_chunk.code@ == Seq::<u8>::empty(),
            parser.current_chunk.constants@ == Seq::<Value>::empty(),
            parser.current_chunk.lines@ == Seq::<i32>::empty(),
            !parser.had_error,
            !parser.panic_mode,
            parser.errors@ == Seq::<RoxError>::empty(),
            parser.typing@ == Typing::start(),
    {
        Parser {
            current: Token::default(),
            previous: Token::default(),
            current_chunk: Chunk::new(),
            had_error: false,
            panic_mode: false,
            errors: Vec::new(),
            typing: Ghost(Typing::start()),
        }
    }

    /// Appends one byte of code, on the line of the token just read.
    pub fn emit_byte(&mut self, byte: u8)
        ensures
            final(self).same_but_chunk(old(self)),
            final(self).current_chunk.constants@ == old(self).current_chunk.constants@,
            final(self).current_chunk.code@ == old(self).current_chunk.code@.push(byte),
            final(self).current_chunk.lines@ == old(self).current_chunk.lines@.push(
                old(self).previous.line,
            ),
    {
        self.current_chunk.write(byte, self.previous.line);
    }

    /// Appends two bytes of code.
    pub fn emit_bytes(&mut self, byte1: u8, byte2: u8)
        ensures
            final(self).same_but_chunk(old(self)),
            final(self).current_chunk.constants@ == old(self).current_chunk.constants@,
            final(self).current_chunk.code@ == old(self).current_chunk.code@ + seq![byte1, byte2],
            final(self).current_chunk.lines@ == old(self).current_chunk.lines@ + seq![
                old(self).previous.line,
                old(self).previous.line,
            ],
    {
        self.emit_byte(byte1);
        self.emit_byte(byte2);
        proof {
            assert(self.current_chunk.code@ =~= old(self).current_chunk.code@ + seq![byte1, byte2]);
            assert(self.current_chunk.lines@ =~= old(self).current_chunk.lines@ + seq![
                old(self).previous.line,
                old(self).previous.line,
            ]);
        }
    }

    /// Appends a jump instruction whose distance is a placeholder, and
    /// returns the offset of that placeholder for `patch_jump`.
    pub fn emit_jump(&mut self, instruction: u8) -> (offset: usize)
        ensures
            final(self).same_but_chunk(old(self)),
            final(self).current_chunk.constants@ == old(self).current_chunk.constants@,
            final(self).current_chunk.code@ == old(self).current_chunk.code@ + seq![
                instruction,
                PLACEHOLDER,
                PLACEHOLDER,
            ],
            final(self).current_chunk.lines@ == old(self).current_chunk.lines@ + seq![
                old(self).previous.line,
                old(self).previous.line,
                old(self).previous.line,
            ],
            offset == old(self).current_chunk.code@.len() + 1,
    {
        self.emit_byte(instruction);
        self.emit_byte(0xFF);  //Emit dummy address to be patched later
        self.emit_byte(0xFF);
        proof {
            assert(self.current_chunk.code@ =~= old(self).current_chunk.code@ + seq![
                instruction,
                PLACEHOLDER,
                PLACEHOLDER,
            ]);
            assert(self.current_chunk.lines@ =~= old(self).current_chunk.lines@ + seq![
                old(self).previous.line,
                old(self).previous.line,
                old(self).previous.line,
            ]);
        }
        self.current_chunk.code.len() - 2
    }

    /// Fills in the distance of the jump whose placeholder is at `offset`, so
    /// that the jump lands behind the last byte emitted so far. The distance
    /// must fit in two bytes.
    pub fn patch_jump(&mut self, offset: usize) -> (result: Result<(), RoxError>)
        requires
            offset + 2 <= old(self).current_chunk.code@.len(),
        ensures
            final(self).same_but_chunk(old(self)),
            final(self).current_chunk.constants@ == old(self).current_chunk.constants@,
            final(self).current_chunk.lines@ == old(self).current_chunk.lines@,
            old(self).current_chunk.code@.len() - offset - 2 > MAX_JUMP ==> {
                &&& final(self).current_chunk.code@ == old(self).current_chunk.code@
                &&& result is Err
                &&& result->Err_0.matches(
                    "Too much code to jump over."@,
                    old(self).previous.lexeme@,
                    old(self).previous.line as int,
                )
            },
            old(self).current_chunk.code@.len() - offset - 2 <= MAX_JUMP ==> {
                &&& result is Ok
                &&& final(self).current_chunk.code@.len() == old(self).current_chunk.code@.len()
                &&& forall|i: int|
                    0 <= i < old(self).current_chunk.code@.len() && i != offset && i != offset + 1
                        ==> final(self).current_chunk.code@[i] == old(self).current_chunk.code@[i]
                &&& operand16(final(self).current_chunk.code@, offset as int) == old(
                    self,
                ).current_chunk.code@.len() - offset - 2
                &&& final(self).current_chunk.code@ == old(self).current_chunk.code@.update(
                    offset as int,
                    ((old(self).current_chunk.code@.len() - offset - 2) / 256) as u8,
                ).update(
                    offset + 1,
                    ((old(self).current_chunk.code@.len() - offset - 2) % 256) as u8,
                )
            },
    {
        //-2 used to adjust for the bytecode for the jump offset itself
        let jump = self.current_chunk.code.len() - offset - 2;

        if jump > MAX_JUMP {
            return Err(
                RoxError::new(
                    "Too much code to jump over.",
                    self.previous.lexeme.clone(),
                    self.previous.line,
                ),
            );
        }
        self.current_chunk.code.set(offset, (jump / 256) as u8);
        self.current_chunk.code.set(offset + 1, (jump % 256) as u8);
        Ok(())
    }

    /// Appends a `Loop` instruction that goes back to `loop_start`. The
    /// distance, counted from behind the instruction, must fit in two bytes;
    /// if it does not, only the opcode has been emitted.
    pub fn emit_loop(&mut self, loop_start: usize) -> (result: Result<(), RoxError>)
        requires
            loop_start <= old(self).current_chunk.code@.len(),
        ensures
            final(self).same_but_chunk(old(self)),
            final(self).current_chunk.constants@ == old(self).current_chunk.constants@,
            old(self).current_chunk.code@.len() + 3 - loop_start > MAX_JUMP ==> {
                &&& final(self).current_chunk.code@ == old(self).current_chunk.code@.push(
                    OpCode::Loop.to_byte(),
                )
                &&& final(self).current_chunk.lines@ == old(self).current_chunk.lines@.push(
                    old(self).previous.line,
                )
                &&& result is Err
                &&& result->Err_0.matches(
                    "Loop body too large."@,
                    old(self).previous.lexeme@,
                    old(self).previous.line as int,
                )
            },
            old(self).current_chunk.code@.len() + 3 - loop_start <= MAX_JUMP ==> {
                &&& result is Ok
                &&& final(self).current_chunk.code@ == old(self).current_chunk.code@ + seq![
                    OpCode::Loop.to_byte(),
                    ((old(self).current_chunk.code@.len() + 3 - loop_start) / 256) as u8,
                    ((old(self).current_chunk.code@.len() + 3 - loop_start) % 256) as u8,
                ]
                &&& final(self).current_chunk.lines@ == old(self).current_chunk.lines@ + seq![
                    old(self).previous.line,
                    old(self).previous.line,
                    old(self).previous.line,
                ]
            },
    {
        self.emit_byte(OpCode::Loop.byte());

        let distance = self.current_chunk.code.len() - loop_start;
        if distance > MAX_JUMP - 2 {
            return Err(
                RoxError::new(
                    "Loop body too large.",
                    self.previous.lexeme.clone(),
                    self.previous.line,
                ),
            );
        }
        let offset = distance + 2;

        self.emit_byte((offset / 256) as u8);
        self.emit_byte((offset % 256) as u8);
        proof {
            assert(self.current_chunk.code@ =~= old(self).current_chunk.code@ + seq![
                OpCode::Loop.to_byte(),
                ((old(self).current_chunk.code@.len() + 3 - loop_start) / 256) as u8,
                ((old(self).current_chunk.code@.len() + 3 - loop_start) % 256) as u8,
            ]);
            assert(self.current_chunk.lines@ =~= old(self).current_chunk.lines@ + seq![
                old(self).previous.line,
                old(self).previous.line,
                old(self).previous.line,
            ]);
        }
        Ok(())
    }

    /// Whether the token being looked at is of the given kind.
    pub fn check(&self, token_type: TokenType) -> (r: bool)
        ensures
            r == (self.current.token_type == token_type),
    {
        self.current.token_type == token_type
    }

    /// Adds a constant to the pool and returns its index as a byte. An index
    /// that does not fit in a byte is an error, and 0 is returned for it.
    pub fn make_constant(&mut self, value: Value) -> (index: u8)
        ensures
            final(self).current == old(self).current,
            final(self).previous == old(self).previous,
            final(self).typing@ == old(self).typing@,
            final(self).current_chunk.code@ == old(self).current_chunk.code@,
            final(self).current_chunk.lines@ == old(self).current_chunk.lines@,
            final(self).current_chunk.constants@ == old(self).current_chunk.constants@.push(value),
            old(self).current_chunk.constants@.len() <= 255 ==> index == old(
                self,
            ).current_chunk.constants@.len() && final(self).same_but_chunk(old(self)),
            old(self).current_chunk.constants@.len() > 255 ==> index == 0 && final(self).told(
                old(self),
                "Too many constants in one chunk."@,
                old(self).previous.lexeme@,
                old(self).previous.line as int,
            ),
    {
        let constant = self.current_chunk.add_constant(value);

        if constant > 255 {
            let error = RoxError::new(
                "Too many constants in one chunk.",
                self.previous.lexeme.clone(),
                self.previous.line,
            );
            self.handle_error(error);
            0
        } else {
            constant as u8
        }
    }

    /// Adds a constant to the pool and emits the instruction that loads it.
    pub fn emit_constant(&mut self, value: Value)
        ensures
            final(self).current == old(self).current,
            final(self).previous == old(self).previous,
            final(self).typing@ == old(self).typing@,
            final(self).current_chunk.constants@ == old(self).current_chunk.constants@.push(value),
            final(self).current_chunk.code@ == old(self).current_chunk.code@ + seq![
                OpCode::Constant.to_byte(),
                if old(self).current_chunk.constants@.len() <= 255 {
                    old(self).current_chunk.constants@.len() as u8
                } else {
                    0u8
                },
            ],
            final(self).current_chunk.lines@ == old(self).current_chunk.lines@ + seq![
                old(self).previous.line,
                old(self).previous.line,
            ],
            old(self).current_chunk.constants@.len() <= 255 ==> final(self).same_but_chunk(
                old(self),
            ),
            old(self).current_chunk.constants@.len() > 255 ==> final(self).told(
                old(self),
                "Too many constants in one chunk."@,
                old(self).previous.lexeme@,
                old(self).previous.line as int,
            ),
    {
        let constant = self.make_constant(value);
        self.emit_bytes(OpCode::Constant.byte(), constant);
    }

    /// Ends the compilation: the code ends with `Return`.
    pub fn end_compiler(&mut self)
        ensures
            final(self).same_but_chunk(old(self)),
            final(self).current_chunk.constants@ == old(self).current_chunk.constants@,
            final(self).current_chunk.code@ == old(self).current_chunk.code@.push(
                OpCode::Return.to_byte(),
            ),
            final(self).current_chunk.lines@ == old(self).current_chunk.lines@.push(
                old(self).previous.line,
            ),
    {
        self.emit_byte(OpCode::Return.byte());
    }

    /// Takes note of an error. The first error since the last
    /// synchronisation is recorded and starts panic mode; errors that arrive
    /// in panic mode are dropped.
    pub fn handle_error(&mut self, error: RoxError)
        ensures
            final(self).same_but_errors(old(self)),
            final(self).told(old(self), error.message@, error.token@, error.line as int),
            old(self).panic_mode ==> final(self).errors@ == old(self).errors@,
            !old(self).panic_mode ==> final(self).errors@ == old(self).errors@.push(error),
    {
        if !self.panic_mode {
            self.panic_mode = true;
            self.errors.push(error);
            self.had_error = true;
            proof {
                assert(self.errors@.drop_last() =~= old(self).errors@);
                lemma_failures_push(old(self).errors@, error);
            }
        }
    }
}

// ---------------------------------------------------------------------------
// Invariants of a compilation.
// ---------------------------------------------------------------------------
/// What holds of every token that the scanner hands out: a string token has
/// its two quotes.
pub open spec fn token_ok(token: &Token) -> bool {
    token.token_type == TokenType::RoxString ==> token.lexeme@.len() >= 2
}

/// For every constant, whether it is a string.
pub open spec fn texts_of(constants: Seq<Value>) -> Seq<bool> {
    Seq::new(constants.len(), |i: int| constants[i] is String)
}

/// The most constants a chunk may hold: an index is one byte.
pub const MAX_CONSTANTS: usize = 256;

impl Parser {
    /// The invariant of the parser while it compiles. `open` holds the
    /// offsets of the jumps that are emitted but not yet patched. As long as
    /// no error was found, the code is in shape but for those jumps, and the
    /// pool is within its limit.
    pub open spec fn inv(&self, open: Set<int>) -> bool {
        &&& self.current_chunk.aligned()
        &&& self.panic_mode ==> self.had_error
        &&& self.had_error <==> self.errors@.len() > 0
        &&& token_ok(&self.previous)
        &&& token_ok(&self.current)
        &&& forall|o: int| open.contains(o) ==> 0 <= o && o + 3 <= self.current_chunk.code@.len()
        &&& !self.had_error ==> typed(self.current_chunk.code@, self.typing@, open)
        &&& !self.had_error ==> self.typing@.texts == texts_of(self.current_chunk.constants@)
        &&& self.typing@.pool.len() == self.current_chunk.constants@.len()
        &&& !self.had_error ==> self.current_chunk.constants@.len() <= MAX_CONSTANTS
    }
}

impl Compiler {
    /// How many blocks enclose the code being compiled.
    pub open spec fn level(&self) -> int {
        match self.scope_depth {
            Depth::Block(d) => d as int,
            _ => 0,
        }
    }

    /// The scope state is one that compiling a program can reach.
    pub open spec fn wf(&self) -> bool {
        &&& self.locals@.len() <= MAX_LOCALS
        &&& match self.scope_depth {
            Depth::Block(d) => d >= 1,
            Depth::Global => true,
            Depth::Uninitialised => false,
        }
    }
}

/// How much is left to read: the characters the scanner has not consumed,
/// and the token being looked at unless it is the end of the source. Every
/// step of the parser that reads a token makes this smaller.
pub open spec fn remaining(parser: &Parser, scanner: &Scanner) -> int {
    scanner.source@.len() - scanner.current + if parser.current.token_type != TokenType::EOF {
        1int
    } else {
        0int
    }
}

/// The joint invariant of parser, scanner and scopes.
pub open spec fn steady(
    parser: &Parser,
    scanner: &Scanner,
    compiler: &Compiler,
    open: Set<int>,
) -> bool {
    &&& parser.inv(open)
    &&& scanner.wf()
    &&& compiler.wf()
    &&& compiler.level() + remaining(parser, scanner) <= scanner.source@.len() + 1
}

/// What a step of the compiler leaves as it was, and what it only moves
/// forward: the source is the same, nothing is un-read, no code is taken
/// back, no error is forgotten, and the scope depth is restored.
pub open spec fn advanced(
    p0: &Parser,
    s0: &Scanner,
    c0: &Compiler,
    p1: &Parser,
    s1: &Scanner,
    c1: &Compiler,
) -> bool {
    &&& s1.source@ == s0.source@
    &&& remaining(p1, s1) <= remaining(p0, s0)
    &&& extends(&p0.current_chunk, &p1.current_chunk)
    &&& (!p1.had_error ==> keeps_typing(
        p0.typing@,
        p1.typing@,
        p0.current_chunk.code@.len() as int,
    ))
    &&& p1.keeps_errors(p0)
    &&& c1.scope_depth == c0.scope_depth
}

/// The heights of the stack up to offset `upto` are those of `earlier`.
pub open spec fn keeps_typing(earlier: Typing, later: Typing, upto: int) -> bool {
    &&& later.marks == earlier.marks
    &&& forall|b: int| 0 <= b <= upto ==> (#[trigger] later.of(b)) == earlier.of(b)
}

/// What a piece of code does to the stack: unless an error was found, the
/// code that was emitted between `p0` and `p1` leaves the stack `delta`
/// higher than it finds it, and something leads to its end.
pub open spec fn lifts(p0: &Parser, p1: &Parser, delta: int) -> bool {
    !p1.had_error ==> p1.typing@.here == p0.typing@.here + delta && p1.typing@.pinned
}

/// The later chunk is the earlier one with code, lines and constants added
/// at the end: what was emitted stays as it is.
pub open spec fn extends(earlier: &Chunk, later: &Chunk) -> bool {
    &&& earlier.code@.len() <= later.code@.len()
    &&& forall|i: int| 0 <= i < earlier.code@.len() ==> later.code@[i] == earlier.code@[i]
    &&& earlier.lines@.len() <= later.lines@.len()
    &&& forall|i: int| 0 <= i < earlier.lines@.len() ==> later.lines@[i] == earlier.lines@[i]
    &&& earlier.constants@.len() <= later.constants@.len()
    &&& forall|i: int|
        0 <= i < earlier.constants@.len() ==> later.constants@[i] == earlier.constants@[i]
}

/// The callback that turns the text of a number literal into the bit
/// pattern of the double it denotes accepts every text.
pub open spec fn reads_all<F: Fn(String) -> u64>(to_number: &F) -> bool {
    forall|s: String| call_requires(to_number, (s,))
}

/// Where the first lexeme at or after `from` starts that is a token: the
/// lexemes that the scanner rejects are passed over. The length of the
/// source if there is none.
pub open spec fn good_start(s: Seq<char>, from: int) -> int
    decreases s.len() - from,
{
    let start = after_trivia(s, from, false);
    if 0 <= from && start < s.len() && !(lexeme_kind(s, start) is Token) && from < lexeme_end(
        s,
        start,
    ) {
        good_start(s, lexeme_end(s, start))
    } else {
        start
    }
}

/// The message of the error that a rejected lexeme gives.
pub open spec fn complaint(kind: Lexeme) -> Seq<char> {
    match kind {
        Lexeme::Unterminated => "Unterminated string."@,
        _ => "Unexpected character."@,
    }
}

/// The token that starts at `start`, for a scanner that is on `line` behind it.
pub open spec fn token_at(s: Seq<char>, start: int, line: i32) -> Lexed {
    if start < s.len() {
        Lexed {
            token_type: lexeme_kind(s, start)->Token_0,
            lexeme: s.subrange(start, lexeme_end(s, start)),
            line,
        }
    } else {
        Lexed { token_type: TokenType::EOF, lexeme: Seq::empty(), line }
    }
}

/// The effect of reading one token: the token looked at becomes the previous
/// one, and the next token that the scanner accepts becomes the one looked
/// at. If the scanner rejects the lexeme that comes first, the parser is
/// told of that error; what it rejects after that is passed over in silence.
pub open spec fn stepped(p0: &Parser, s0: &Scanner, p1: &Parser, s1: &Scanner) -> bool {
    let src = s0.source@;
    let first = after_trivia(src, s0.current as int, false);
    &&& s1.wf()
    &&& s1.source@ == src
    &&& p1.current_chunk.same(&p0.current_chunk)
    &&& p1.typing@ == p0.typing@
    &&& p1.previous@ == p0.current@
    &&& s1.start == good_start(src, s0.current as int)
    &&& s1.current == if s1.start < src.len() {
        lexeme_end(src, s1.start as int)
    } else {
        s1.start as int
    }
    &&& s1.line == s0.line + newlines(src, s0.current as int, s1.current as int)
    &&& p1.current@ == token_at(src, s1.start as int, s1.line)
    &&& if first < src.len() && !(lexeme_kind(src, first) is Token) {
        p1.told(
            p0,
            complaint(lexeme_kind(src, first)),
            src.subrange(first, lexeme_end(src, first)),
            s0.line + newlines(src, s0.current as int, first),
        )
    } else {
        &&& p1.had_error == p0.had_error
        &&& p1.panic_mode == p0.panic_mode
        &&& p1.errors@ == p0.errors@
    }
}

/// A string token holds at least its two quotes.
pub proof fn lemma_string_has_quotes(s: Seq<char>, start: int)
    requires
        0 <= start < s.len(),
        lexeme_kind(s, start) == Lexeme::Token(TokenType::RoxString),
    ensures
        lexeme_end(s, start) >= start + 2,
{
    lemma_keyword_never_string(s.subrange(start, word_end(s, start + 1)));
    lemma_quote_at_bounds(s, start + 1);
}

/// No word is a string token.
pub proof fn lemma_keyword_never_string(word: Seq<char>)
    ensures
        keyword(word) != TokenType::RoxString,
        keyword(word) != TokenType::EOF,
{
}

/// Reading a token loses nothing of the invariant, never un-reads, and makes
/// progress unless the end of the source was already being looked at.
pub proof fn lemma_stepped(p0: &Parser, s0: &Scanner, p1: &Parser, s1: &Scanner)
    requires
        s0.wf(),
        stepped(p0, s0, p1, s1),
    ensures
        forall|open: Set<int>| #[trigger] p0.inv(open) ==> p1.inv(open),
        remaining(p1, s1) <= remaining(p0, s0),
        p0.current.token_type != TokenType::EOF ==> remaining(p1, s1) < remaining(p0, s0),
        p1.keeps_errors(p0),
        token_ok(&p0.current) ==> token_ok(&p1.previous),
        token_ok(&p1.current),
        s0.current <= s1.start,
{
    let src = s0.source@;
    lemma_good_start_bounds(src, s0.current as int);
    let start = s1.start as int;
    if start < src.len() {
        lemma_lexeme_end_bounds(src, start);
        lemma_good_start_is_token(src, s0.current as int);
        if lexeme_kind(src, start) == Lexeme::Token(TokenType::RoxString) {
            lemma_string_has_quotes(src, start);
        }
        lemma_keyword_never_string(src.subrange(start, word_end(src, start + 1)));
    }
}

pub proof fn lemma_good_start_bounds(s: Seq<char>, from: int)
    requires
        0 <= from <= s.len(),
    ensures
        from <= good_start(s, from) <= s.len(),
    decreases s.len() - from,
{
    lemma_after_trivia_bounds(s, from, false);
    let start = after_trivia(s, from, false);
    if start < s.len() && !(lexeme_kind(s, start) is Token) {
        lemma_lexeme_end_bounds(s, start);
        lemma_good_start_bounds(s, lexeme_end(s, start));
    }
}

/// Where `good_start` stops inside the source, a token starts.
pub proof fn lemma_good_start_is_token(s: Seq<char>, from: int)
    requires
        0 <= from <= s.len(),
    ensures
        good_start(s, from) < s.len() ==> lexeme_kind(s, good_start(s, from)) is Token,
        good_start(s, from) < s.len() ==> lexeme_kind(s, good_start(s, from))->Token_0
            != TokenType::EOF,
    decreases s.len() - from,
{
    lemma_after_trivia_bounds(s, from, false);
    let start = after_trivia(s, from, false);
    if start < s.len() {
        lemma_lexeme_end_bounds(s, start);
        lemma_keyword_never_string(s.subrange(start, word_end(s, start + 1)));
        if !(lexeme_kind(s, start) is Token) {
            lemma_good_start_is_token(s, lexeme_end(s, start));
        }
    }
}

/// Reads the next token: the token looked at becomes the previous one, and
/// the scanner is asked for tokens until it hands one out. What it rejects
/// on the way is reported to the parser.
#[verifier::spinoff_prover]
pub fn advance(parser: &mut Parser, scanner: &mut Scanner)
    requires
        old(scanner).wf(),
    ensures
        stepped(old(parser), old(scanner), final(parser), final(scanner)),
        forall|open: Set<int>| #[trigger] old(parser).inv(open) ==> final(parser).inv(open),
        remaining(final(parser), final(scanner)) <= remaining(old(parser), old(scanner)),
        old(parser).current.token_type != TokenType::EOF ==> remaining(
            final(parser),
            final(scanner),
        ) < remaining(old(parser), old(scanner)),
        final(parser).keeps_errors(old(parser)),
        token_ok(&final(parser).current),
        forall|c: &Compiler|
            #![trigger state(final(parser), final(scanner), c)]
            follows(
                program::advance(old(scanner).source@, state(old(parser), old(scanner), c)),
                final(parser),
                final(scanner),
                c,
            ),
{
    parser.previous = parser.current.clone();  //Needed since String doesn't implement Copy

    let ghost src = scanner.source@;
    let ghost first = after_trivia(src, old(scanner).current as int, false);
    let ghost rejected = false;
    proof {
        lemma_after_trivia_bounds(src, old(scanner).current as int, false);
    }
    loop
        invariant_except_break
            scanner.wf(),
            scanner.source@ == src,
            old(scanner).wf(),
            old(scanner).source@ == src,
            old(scanner).current <= scanner.current,
            parser.current_chunk.same(&old(parser).current_chunk),
            parser.typing@ == old(parser).typing@,
            parser.previous@ == old(parser).current@,
            first == after_trivia(src, old(scanner).current as int, false),
            good_start(src, scanner.current as int) == good_start(
                src,
                old(scanner).current as int,
            ),
            scanner.line == old(scanner).line + newlines(
                src,
                old(scanner).current as int,
                scanner.current as int,
            ),
            rejected == (old(scanner).current < scanner.current),
            rejected ==> first < src.len() && !(lexeme_kind(src, first) is Token),
            if rejected {
                parser.told(
                    old(parser),
                    complaint(lexeme_kind(src, first)),
                    src.subrange(first, lexeme_end(src, first)),
                    old(scanner).line + newlines(src, old(scanner).current as int, first),
                )
            } else {
                &&& parser.had_error == old(parser).had_error
                &&& parser.panic_mode == old(parser).panic_mode
                &&& parser.errors@ == old(parser).errors@
            },
        ensures
            stepped(old(parser), old(scanner), parser, scanner),
        decreases src.len() - scanner.current,
    {
        let ghost before = *scanner;
        let ghost told_before = *parser;
        let token = scanner.scan_token();
        proof {
            lemma_after_trivia_bounds(src, before.current as int, false);
            if scanner.start < src.len() {
                lemma_lexeme_end_bounds(src, scanner.start as int);
            }
            lemma_newlines_split(
                src,
                old(scanner).current as int,
                before.current as int,
                scanner.current as int,
            );
            if scanner.start < src.len() {
                lemma_after_trivia_stops(src, before.current as int, false);
                lemma_newlines_split(
                    src,
                    before.current as int,
                    scanner.start as int,
                    scanner.current as int,
                );
                if lexeme_kind(src, scanner.start as int) is Unexpected {
                    assert(scanner.current == scanner.start + 1);
                    assert(newlines(src, scanner.start as int, scanner.start as int) == 0);
                    assert(newlines(src, scanner.start as int, scanner.current as int) == 0);
                }
            }
        }
        match token {
            Ok(t) => {
                parser.current = t;
                break ;
            },
            Err(e) => {
                parser.handle_error(e);
                proof {
                    rejected = true;
                }
            },
        }
    }
    proof {
        lemma_stepped(old(parser), old(scanner), parser, scanner);
        assert forall|c: &Compiler|
            #![trigger state(parser, scanner, c)]
            follows(
                program::advance(old(scanner).source@, state(old(parser), old(scanner), c)),
                parser,
                scanner,
                c,
            ) by {
            lemma_good_start_first(src, old(scanner).current as int);
        }
    }
}

/// Where the lexeme that comes first is a token, it is the first that the
/// scanner accepts.
pub proof fn lemma_good_start_first(s: Seq<char>, from: int)
    requires
        0 <= from <= s.len(),
    ensures
        ({
            let start = after_trivia(s, from, false);
            start >= s.len() || lexeme_kind(s, start) is Token ==> good_start(s, from) == start
        }),
{
    lemma_after_trivia_bounds(s, from, false);
}

/// What reading tokens, and nothing else, does to the parser and the
/// scanner: the chunk stays as it is and the invariant is kept.
pub open spec fn read_on(p0: &Parser, s0: &Scanner, p1: &Parser, s1: &Scanner) -> bool {
    &&& s1.wf()
    &&& s1.source@ == s0.source@
    &&& p1.current_chunk.same(&p0.current_chunk)
    &&& p1.typing@ == p0.typing@
    &&& forall|open: Set<int>| #[trigger] p0.inv(open) ==> p1.inv(open)
    &&& remaining(p1, s1) <= remaining(p0, s0)
    &&& p1.keeps_errors(p0)
}

/// Reads the token being looked at if it is of the expected kind. If it is
/// not, nothing is read and the error says so, at the lexeme the scanner
/// read last.
pub fn consume(parser: &mut Parser, scanner: &mut Scanner, token_type: TokenType, message: &str) -> (result:
    Result<(), RoxError>)
    requires
        old(scanner).wf(),
    ensures
        read_on(old(parser), old(scanner), final(parser), final(scanner)),
        result is Ok <==> old(parser).current.token_type == token_type,
        result is Ok ==> stepped(old(parser), old(scanner), final(parser), final(scanner)),
        result is Ok && token_type != TokenType::EOF ==> remaining(final(parser), final(scanner))
            < remaining(old(parser), old(scanner)),
        result is Err ==> {
            &&& *final(parser) == *old(parser)
            &&& *final(scanner) == *old(scanner)
            &&& result->Err_0.matches(message@, old(scanner).pending(), old(scanner).line as int)
        },
{
    if parser.current.token_type == token_type {
        advance(parser, scanner);
        Ok(())
    } else {
        Err(RoxError::new(message, scanner.get_token(), scanner.line))
    }
}

/// Reads the token being looked at if it is of the given kind, and says
/// whether it was.
#[verifier::spinoff_prover]
pub fn match_token(parser: &mut Parser, scanner: &mut Scanner, token_type: TokenType) -> (matched:
    bool)
    requires
        old(scanner).wf(),
    ensures
        read_on(old(parser), old(scanner), final(parser), final(scanner)),
        matched == (old(parser).current.token_type == token_type),
        matched ==> stepped(old(parser), old(scanner), final(parser), final(scanner)),
        matched && token_type != TokenType::EOF ==> remaining(final(parser), final(scanner))
            < remaining(old(parser), old(scanner)),
        !matched ==> *final(parser) == *old(parser) && *final(scanner) == *old(scanner),
        matched ==> forall|c: &Compiler|
            #![trigger state(final(parser), final(scanner), c)]
            follows(
                program::advance(old(scanner).source@, state(old(parser), old(scanner), c)),
                final(parser),
                final(scanner),
                c,
            ),
{
    if !parser.check(token_type) {
        false
    } else {
        advance(parser, scanner);
        true
    }
}

/// Reads a token of the expected kind, or reports that it is missing.
#[verifier::spinoff_prover]
pub(crate) fn expect(parser: &mut Parser, scanner: &mut Scanner, token_type: TokenType, message: &str)
    requires
        old(scanner).wf(),
    ensures
        read_on(old(parser), old(scanner), final(parser), final(scanner)),
        old(parser).current.token_type != token_type ==> final(parser).panic_mode,
        old(parser).current.token_type == token_type && token_type != TokenType::EOF ==> remaining(
            final(parser),
            final(scanner),
        ) < remaining(old(parser), old(scanner)),
        forall|c: &Compiler|
            #![trigger state(final(parser), final(scanner), c)]
            follows(
                program::expect(
                    old(scanner).source@,
                    state(old(parser), old(scanner), c),
                    token_type,
                    message@,
                ),
                final(parser),
                final(scanner),
                c,
            ),
{
    match consume(parser, scanner, token_type, message) {
        Ok(()) => {},
        Err(e) => {
            parser.handle_error(e);
        },
    }
}

/// Ends panic mode and skips tokens up to the first point where a statement
/// is likely to begin: behind a semicolon, or in front of a keyword that
/// begins a statement. The first lexeme that the scanner rejects on the way
/// is recorded as an error and begins panic mode again.
pub fn synchronise(parser: &mut Parser, scanner: &mut Scanner)
    requires
        old(scanner).wf(),
    ensures
        read_on(old(parser), old(scanner), final(parser), final(scanner)),
        forall|c: &Compiler|
            #![trigger state(final(parser), final(scanner), c)]
            follows(
                program::synchronise(old(scanner).source@, state(old(parser), old(scanner), c)),
                final(parser),
                final(scanner),
                c,
            ),
{
    reveal(program::resume);
    parser.panic_mode = false;
    let ghost src = scanner.source@;

    while parser.current.token_type != TokenType::EOF
        invariant
            scanner.wf(),
            scanner.source@ == src,
            src == old(scanner).source@,
            parser.current_chunk.same(&old(parser).current_chunk),
            parser.typing@ == old(parser).typing@,
            forall|open: Set<int>| #[trigger] old(parser).inv(open) ==> parser.inv(open),
            remaining(parser, scanner) <= remaining(old(parser), old(scanner)),
            parser.keeps_errors(old(parser)),
            forall|c: &Compiler|
                #![trigger state(parser, scanner, c)]
                program::resume(src, state(parser, scanner, c)) == program::synchronise(
                    src,
                    state(old(parser), old(scanner), c),
                ),
        decreases remaining(parser, scanner),
    {
        if parser.previous.token_type == TokenType::Semicolon {
            proof {
                assert forall|c: &Compiler| #![trigger state(parser, scanner, c)]
                    follows(
                        program::synchronise(src, state(old(parser), old(scanner), c)),
                        parser,
                        scanner,
                        c,
                    ) by {
                    reveal(program::resume);
                    assert(program::resumable(state(parser, scanner, c)));
                }
            }
            return ;
        }
        match parser.current.token_type {
            TokenType::Class
            | TokenType::Fun
            | TokenType::Var
            | TokenType::For
            | TokenType::If
            | TokenType::While
            | TokenType::Print
            | TokenType::Return => {
                proof {
                    assert forall|c: &Compiler| #![trigger state(parser, scanner, c)]
                        follows(
                            program::synchronise(src, state(old(parser), old(scanner), c)),
                            parser,
                            scanner,
                            c,
                        ) by {
                        reveal(program::resume);
                        assert(program::resumable(state(parser, scanner, c)));
                    }
                }
                return ;
            },
            _ => (),
        }

        let ghost parser_before = *parser;
        let ghost scanner_before = *scanner;
        advance(parser, scanner);
        reveal(program::resume);
        proof {
            assert forall|c: &Compiler| #![trigger state(parser, scanner, c)]
                program::resume(src, state(parser, scanner, c)) == program::synchronise(
                    src,
                    state(old(parser), old(scanner), c),
                ) by {
                let before = state(&parser_before, &scanner_before, c);
                lemma_rest(&parser_before, &scanner_before, c);
                lemma_rest(parser, scanner, c);
                assert(state(parser, scanner, c) == program::advance(src, before));
                assert(!program::resumable(before));
            }
        }
    }
}

// ---------------------------------------------------------------------------
// The compiler and the definition of what it compiles.
// ---------------------------------------------------------------------------
/// The locals by name and depth.
pub open spec fn variables(locals: Seq<Local>) -> Seq<Variable> {
    Seq::new(
        locals.len(),
        |i: int|
            Variable {
                name: locals[i].name.lexeme@,
                line: locals[i].name.line,
                depth: locals[i].depth,
            },
    )
}

/// What the diagnostics say.
pub open spec fn failures(errors: Seq<RoxError>) -> Seq<Failure> {
    Seq::new(
        errors.len(),
        |i: int|
            Failure {
                message: errors[i].message@,
                token: errors[i].token@,
                line: errors[i].line as int,
            },
    )
}

/// One more diagnostic says one thing more.
pub proof fn lemma_failures_push(errors: Seq<RoxError>, error: RoxError)
    ensures
        failures(errors.push(error)) == failures(errors).push(
            Failure { message: error.message@, token: error.token@, line: error.line as int },
        ),
{
    assert(failures(errors.push(error)) =~= failures(errors).push(
        Failure { message: error.message@, token: error.token@, line: error.line as int },
    ));
}

/// The state of the compilation as the definition of programs sees it.
pub open spec fn state(parser: &Parser, scanner: &Scanner, compiler: &Compiler) -> State {
    State {
        had_error: parser.had_error,
        panic_mode: parser.panic_mode,
        errors: failures(parser.errors@),
        start: scanner.start as int,
        position: scanner.current as int,
        line: scanner.line,
        previous: parser.previous@,
        current: parser.current@,
        code: parser.current_chunk.code@,
        lines: parser.current_chunk.lines@,
        pool: parser.typing@.pool,
        locals: variables(compiler.locals@),
        depth: compiler.scope_depth,
    }
}

/// The compiler has done what the definition says: it has come to the
/// state that the definition gives.
pub open spec fn follows(
    defined: State,
    parser: &Parser,
    scanner: &Scanner,
    compiler: &Compiler,
) -> bool {
    state(parser, scanner, compiler) == defined
}

/// What is left to read is the same for the compiler and in the definition.
pub proof fn lemma_rest(parser: &Parser, scanner: &Scanner, compiler: &Compiler)
    requires
        scanner.wf(),
    ensures
        program::rest(scanner.source@, state(parser, scanner, compiler)) == remaining(
            parser,
            scanner,
        ),
{
}

/// The innermost local of a name is the same by either reckoning.
pub proof fn lemma_variables_lookup(locals: Seq<Local>, name: Seq<char>)
    ensures
        program::slot_of(variables(locals), name) == lookup(locals, name),
    decreases locals.len(),
{
    if locals.len() > 0 {
        assert(variables(locals).drop_last() =~= variables(locals.drop_last()));
        lemma_variables_lookup(locals.drop_last(), name);
    }
}

/// A name clashes by either reckoning.
pub proof fn lemma_variables_clashes(locals: Seq<Local>, name: Seq<char>, depth: Depth)
    ensures
        program::taken(variables(locals), name, depth) == clashes(locals, name, depth),
    decreases locals.len(),
{
    if locals.len() > 0 {
        assert(variables(locals).drop_last() =~= variables(locals.drop_last()));
        lemma_variables_clashes(locals.drop_last(), name, depth);
    }
}

/// As many locals stay by either reckoning.
pub proof fn lemma_variables_kept(locals: Seq<Local>, depth: Depth)
    ensures
        program::staying(variables(locals), depth) == kept(locals, depth),
        kept(locals, depth) <= locals.len(),
        variables(locals.take(kept(locals, depth) as int)) == variables(locals).take(
            kept(locals, depth) as int,
        ),
    decreases locals.len(),
{
    lemma_kept_bound(locals, depth);
    if locals.len() > 0 {
        assert(variables(locals).drop_last() =~= variables(locals.drop_last()));
        lemma_variables_kept(locals.drop_last(), depth);
    }
    assert(variables(locals.take(kept(locals, depth) as int)) =~= variables(locals).take(
        kept(locals, depth) as int,
    ));
}

/// A constant that is written as it is added keeps the pool fitting.
pub proof fn lemma_pool_push<F: Fn(String) -> u64>(
    constants: Seq<Value>,
    pool: Seq<Constant>,
    value: Value,
    written: Constant,
    to_number: &F,
)
    requires
        pool_fits(constants, pool, to_number),
        match written {
            Constant::Text(text) => value@ == crate::value::Datum::Text(text),
            Constant::Number(literal) => value is Number && exists|text: String|
                text@ == literal && call_ensures(to_number, (text,), value->Number_0),
        },
    ensures
        pool_fits(constants.push(value), pool.push(written), to_number),
{
    let longer = constants.push(value);
    let more = pool.push(written);
    assert forall|i: int| 0 <= i < more.len() implies match #[trigger] more[i] {
        Constant::Text(text) => longer[i]@ == crate::value::Datum::Text(text),
        Constant::Number(literal) => longer[i] is Number && exists|text: String|
            text@ == literal && call_ensures(to_number, (text,), longer[i]->Number_0),
    } by {
        if i < pool.len() {
            assert(more[i] == pool[i]);
            assert(longer[i] == constants[i]);
        }
    }
}

/// The constants of the chunk are those that were written: a string has
/// the characters that were written, and a number is what the callback
/// makes of the literal that was written.
pub open spec fn pool_fits<F: Fn(String) -> u64>(
    constants: Seq<Value>,
    pool: Seq<Constant>,
    to_number: &F,
) -> bool {
    &&& constants.len() == pool.len()
    &&& forall|i: int|
        0 <= i < pool.len() ==> match #[trigger] pool[i] {
            Constant::Text(text) => constants[i]@ == crate::value::Datum::Text(text),
            Constant::Number(literal) => constants[i] is Number && exists|text: String|
                text@ == literal && call_ensures(to_number, (text,), constants[i]->Number_0),
        }
}

/// Unless an error was found, the pool is what was written.
pub open spec fn numbered<F: Fn(String) -> u64>(parser: &Parser, to_number: &F) -> bool {
    !parser.had_error ==> pool_fits(parser.current_chunk.constants@, parser.typing@.pool, to_number)
}

/// `p1` is `p0` after the instruction `ins` was emitted: the instruction is
/// appended to the code, and the heights know how it changes the stack.
pub open spec fn emitted(p0: &Parser, p1: &Parser, ins: Seq<u8>) -> bool {
    &&& p1.same_but_code(p0)
    &&& p1.current_chunk.constants@ == p0.current_chunk.constants@
    &&& p1.current_chunk.code@ == p0.current_chunk.code@ + ins
    &&& p1.current_chunk.lines@ == p0.current_chunk.lines@ + repeated(p0.previous.line, ins.len())
    &&& extends(&p0.current_chunk, &p1.current_chunk)
    &&& p1.typing@ == p0.typing@.after(ins[0], ins.len() as int)
    &&& (!p1.had_error ==> keeps_typing(
        p0.typing@,
        p1.typing@,
        p0.current_chunk.code@.len() as int,
    ))
}

/// The heights after `n` instructions `Pop`.
pub open spec fn popped(h: Typing, n: nat) -> Typing
    decreases n,
{
    if n == 0 {
        h
    } else {
        popped(h, (n - 1) as nat).after(OpCode::Pop.to_byte(), 1)
    }
}

/// Appending `Pop`s where the stack is high enough keeps the heights fitting.
pub proof fn lemma_typed_pops(code: Seq<u8>, n: nat, h: Typing, open: Set<int>)
    requires
        typed(code, h, open),
        h.here >= n,
    ensures
        typed(code + Seq::new(n, |i: int| OpCode::Pop.to_byte()), popped(h, n), open),
        popped(h, n).here == h.here - n,
        popped(h, n).texts == h.texts,
        popped(h, n).pool == h.pool,
        n > 0 ==> popped(h, n).pinned,
        n == 0 ==> popped(h, n) == h,
        keeps_typing(h, popped(h, n), code.len() as int),
    decreases n,
{
    let pops = Seq::new(n, |i: int| OpCode::Pop.to_byte());
    if n == 0 {
        assert(code + pops =~= code);
    } else {
        let fewer = Seq::new((n - 1) as nat, |i: int| OpCode::Pop.to_byte());
        let before = popped(h, (n - 1) as nat);
        lemma_typed_pops(code, (n - 1) as nat, h, open);
        lemma_typed_append(code + fewer, seq![OpCode::Pop.to_byte()], before, open);
        assert(code + pops =~= (code + fewer) + seq![OpCode::Pop.to_byte()]);
        assert forall|b: int| 0 <= b <= code.len() implies (#[trigger] popped(h, n).of(b)) == h.of(
            b,
        ) by {
            lemma_after_of(before, OpCode::Pop.to_byte(), 1, b);
        }
    }
}

impl Parser {
    /// The tokens and the error state are as in `other`.
    pub open spec fn same_but_code(&self, other: &Parser) -> bool {
        &&& self.current == other.current
        &&& self.previous == other.previous
        &&& self.had_error == other.had_error
        &&& self.panic_mode == other.panic_mode
        &&& self.errors@ == other.errors@
    }

    /// Records what the instruction that was just appended does to the stack.
    pub proof fn lemma_emitted(before: &Parser, after: &Parser, ins: Seq<u8>, open: Set<int>)
        requires
            before.inv(open),
            is_instruction(ins),
            after.same_but_code(before),
            after.current_chunk.code@ == before.current_chunk.code@ + ins,
            after.current_chunk.lines@ == before.current_chunk.lines@ + repeated(
                before.previous.line,
                ins.len(),
            ),
            after.current_chunk.constants@ == before.current_chunk.constants@,
            after.typing@ == before.typing@.after(ins[0], ins.len() as int),
            !before.had_error ==> before.typing@.here >= stack_needs(ins[0]),
            !before.had_error && ins.len() == 2 ==> operand_fits(
                ins[0],
                ins[1],
                before.typing@.texts,
                before.typing@.here,
            ),
            !before.had_error && is_backward_jump(ins[0]) ==> 0 <= jump_target(
                after.current_chunk.code@,
                before.current_chunk.code@.len() as int,
            ) <= before.current_chunk.code@.len() && reaches(
                before.current_chunk.code@,
                0,
                jump_target(after.current_chunk.code@, before.current_chunk.code@.len() as int),
            ) && before.typing@.of(
                jump_target(after.current_chunk.code@, before.current_chunk.code@.len() as int),
            ) == before.typing@.here,
        ensures
            after.inv(
                if is_forward_jump(ins[0]) {
                    open.insert(before.current_chunk.code@.len() as int)
                } else {
                    open
                },
            ),
            !before.had_error ==> keeps_typing(
                before.typing@,
                after.typing@,
                before.current_chunk.code@.len() as int,
            ),
    {
        let code = before.current_chunk.code@;
        if !before.had_error {
            lemma_typed_append(code, ins, before.typing@, open);
            assert forall|b: int| 0 <= b <= code.len() implies (#[trigger] after.typing@.of(b))
                == before.typing@.of(b) by {
                lemma_after_of(before.typing@, ins[0], ins.len() as int, b);
            }
        }
    }

    /// Emits an instruction that has no operand.
    pub(crate) fn emit_op(&mut self, op: OpCode, Ghost(open): Ghost<Set<int>>)
        requires
            old(self).inv(open),
            op.operands() == 0,
            !old(self).had_error ==> old(self).typing@.here >= stack_needs(op.to_byte()),
        ensures
            final(self).inv(open),
            emitted(old(self), final(self), seq![op.to_byte()]),
            final(self).current_chunk.code@ == old(self).current_chunk.code@.push(op.to_byte()),
    {
        self.emit_byte(op.byte());
        self.typing = Ghost(self.typing@.after(op.to_byte(), 1));
        proof {
            let code = old(self).current_chunk.code@;
            assert(code.push(op.to_byte()) =~= code + seq![op.to_byte()]);
            assert(self.current_chunk.lines@ =~= old(self).current_chunk.lines@ + repeated(
                old(self).previous.line,
                1,
            ));
            Self::lemma_emitted(old(self), self, seq![op.to_byte()], open);
        }
    }

    /// Emits an instruction that has a one-byte operand.
    pub(crate) fn emit_op_with(&mut self, op: OpCode, operand: u8, Ghost(open): Ghost<Set<int>>)
        requires
            old(self).inv(open),
            op.operands() == 1,
            !old(self).had_error ==> old(self).typing@.here >= stack_needs(op.to_byte()),
            !old(self).had_error ==> operand_fits(
                op.to_byte(),
                operand,
                old(self).typing@.texts,
                old(self).typing@.here,
            ),
        ensures
            final(self).inv(open),
            emitted(old(self), final(self), seq![op.to_byte(), operand]),
    {
        self.emit_bytes(op.byte(), operand);
        self.typing = Ghost(self.typing@.after(op.to_byte(), 2));
        proof {
            assert(self.current_chunk.lines@ =~= old(self).current_chunk.lines@ + repeated(
                old(self).previous.line,
                2,
            ));
            Self::lemma_emitted(old(self), self, seq![op.to_byte(), operand], open);
        }
    }

    /// Emits a forward jump and opens it: its distance is filled in by
    /// `finish_jump`.
    pub(crate) fn start_jump(&mut self, op: OpCode, Ghost(open): Ghost<Set<int>>) -> (offset: usize)
        requires
            old(self).inv(open),
            op == OpCode::Jump || op == OpCode::JumpIfFalse,
            !old(self).had_error ==> old(self).typing@.here >= stack_needs(op.to_byte()),
        ensures
            final(self).inv(open.insert(offset - 1)),
            !open.contains(offset - 1),
            offset == old(self).current_chunk.code@.len() + 1,
            final(self).current_chunk.code@.len() == old(self).current_chunk.code@.len() + 3,
            emitted(old(self), final(self), seq![op.to_byte(), PLACEHOLDER, PLACEHOLDER]),
    {
        let offset = self.emit_jump(op.byte());
        self.typing = Ghost(self.typing@.after(op.to_byte(), 3));
        proof {
            assert(self.current_chunk.lines@ =~= old(self).current_chunk.lines@ + repeated(
                old(self).previous.line,
                3,
            ));
            Self::lemma_emitted(
                old(self),
                self,
                seq![op.to_byte(), PLACEHOLDER, PLACEHOLDER],
                open,
            );
        }
        offset
    }

    /// Patches an open jump so that it lands behind the code emitted so far,
    /// or reports that the distance is too long. Either way the jump is no
    /// longer open. Where the jump lands the stack is as high as where it
    /// was emitted.
    pub(crate) fn finish_jump(&mut self, offset: usize, Ghost(open): Ghost<Set<int>>)
        requires
            old(self).inv(open),
            offset >= 1,
            open.contains(offset - 1),
            !old(self).had_error && old(self).typing@.pinned ==> old(self).typing@.of(offset - 1)
                == old(self).typing@.here,
        ensures
            final(self).inv(open.remove(offset - 1)),
            final(self).current == old(self).current,
            final(self).previous == old(self).previous,
            final(self).current_chunk.code@.len() == old(self).current_chunk.code@.len(),
            forall|i: int|
                0 <= i < old(self).current_chunk.code@.len() && i != offset && i != offset + 1
                    ==> final(self).current_chunk.code@[i] == old(self).current_chunk.code@[i],
            final(self).current_chunk.lines@ == old(self).current_chunk.lines@,
            final(self).current_chunk.constants@ == old(self).current_chunk.constants@,
            final(self).keeps_errors(old(self)),
            !final(self).had_error ==> forall|t: int| #[trigger]
                reaches(old(self).current_chunk.code@, 0, t) ==> reaches(
                    final(self).current_chunk.code@,
                    0,
                    t,
                ),
            !final(self).had_error ==> final(self).typing@ == old(self).typing@.landed(
                old(self).typing@.of(offset - 1),
            ),
            old(self).current_chunk.code@.len() - offset - 2 > MAX_JUMP ==> final(self).had_error
                && final(self).told(
                old(self),
                "Too much code to jump over."@,
                old(self).previous.lexeme@,
                old(self).previous.line as int,
            ),
            final(self).typing@.pool == old(self).typing@.pool,
            old(self).current_chunk.code@.len() - offset - 2 > MAX_JUMP
                ==> final(self).current_chunk.code@ == old(self).current_chunk.code@,
            old(self).current_chunk.code@.len() - offset - 2 <= MAX_JUMP ==> final(self).panic_mode
                == old(self).panic_mode && final(self).errors@ == old(self).errors@,
            old(self).current_chunk.code@.len() - offset - 2 <= MAX_JUMP ==> final(self).had_error
                == old(self).had_error && final(self).current_chunk.code@ == old(
                self,
            ).current_chunk.code@.update(
                offset as int,
                ((old(self).current_chunk.code@.len() - offset - 2) / 256) as u8,
            ).update(
                offset + 1,
                ((old(self).current_chunk.code@.len() - offset - 2) % 256) as u8,
            ),
            !final(self).had_error ==> keeps_typing(
                old(self).typing@,
                final(self).typing@,
                old(self).current_chunk.code@.len() - 1,
            ),
    {
        match self.patch_jump(offset) {
            Ok(()) => {
                self.typing = Ghost(self.typing@.landed(self.typing@.of(offset - 1)));
                proof {
                    if !self.had_error {
                        let code = old(self).current_chunk.code@;
                        let patched = self.current_chunk.code@;
                        lemma_typed_land(code, patched, offset - 1, old(self).typing@, open);
                        assert forall|t: int| #[trigger] reaches(code, 0, t) implies reaches(
                            patched,
                            0,
                            t,
                        ) by {
                            lemma_reaches_patch(code, patched, offset - 1, 0, t);
                        }
                    }
                }
            },
            Err(e) => {
                self.handle_error(e);
            },
        }
    }

    /// Emits the jump back to `loop_start`, or reports that the loop is too
    /// long. The stack must be as high as it is where the loop starts.
    pub(crate) fn close_loop(&mut self, loop_start: usize, Ghost(open): Ghost<Set<int>>)
        requires
            old(self).inv(open),
            loop_start <= old(self).current_chunk.code@.len(),
            !old(self).had_error ==> reaches(old(self).current_chunk.code@, 0, loop_start as int),
            !old(self).had_error ==> old(self).typing@.of(loop_start as int) == old(
                self,
            ).typing@.here,
        ensures
            final(self).inv(open),
            final(self).current == old(self).current,
            final(self).previous == old(self).previous,
            extends(&old(self).current_chunk, &final(self).current_chunk),
            final(self).current_chunk.constants@ == old(self).current_chunk.constants@,
            final(self).keeps_errors(old(self)),
            !final(self).had_error ==> final(self).typing@ == old(self).typing@.after(
                OpCode::Loop.to_byte(),
                3,
            ),
            old(self).current_chunk.code@.len() + 3 - loop_start > MAX_JUMP ==> final(self).had_error
                && final(self).told(
                old(self),
                "Loop body too large."@,
                old(self).previous.lexeme@,
                old(self).previous.line as int,
            ),
            old(self).current_chunk.code@.len() + 3 - loop_start <= MAX_JUMP ==> {
                &&& final(self).had_error == old(self).had_error
                &&& final(self).panic_mode == old(self).panic_mode
                &&& final(self).errors@ == old(self).errors@
                &&& final(self).current_chunk.code@ == old(self).current_chunk.code@ + seq![
                    OpCode::Loop.to_byte(),
                    ((old(self).current_chunk.code@.len() + 3 - loop_start) / 256) as u8,
                    ((old(self).current_chunk.code@.len() + 3 - loop_start) % 256) as u8,
                ]
                &&& final(self).current_chunk.lines@ == old(self).current_chunk.lines@
                    + repeated(old(self).previous.line, 3)
            },
            old(self).current_chunk.code@.len() + 3 - loop_start > MAX_JUMP ==> {
                &&& final(self).current_chunk.code@ == old(self).current_chunk.code@ + seq![
                    OpCode::Loop.to_byte(),
                ]
                &&& final(self).current_chunk.lines@ == old(self).current_chunk.lines@
                    + repeated(old(self).previous.line, 1)
            },
            final(self).typing@.pool == old(self).typing@.pool,
            !final(self).had_error ==> keeps_typing(
                old(self).typing@,
                final(self).typing@,
                old(self).current_chunk.code@.len() as int,
            ),
    {
        match self.emit_loop(loop_start) {
            Ok(()) => {
                self.typing = Ghost(self.typing@.after(OpCode::Loop.to_byte(), 3));
                proof {
                    let code = old(self).current_chunk.code@;
                    let distance = code.len() + 3 - loop_start;
                    let ins = seq![
                        OpCode::Loop.to_byte(),
                        (distance / 256) as u8,
                        (distance % 256) as u8,
                    ];
                    assert((code + ins)[code.len() as int] == ins[0]);
                    assert((code + ins)[code.len() as int + 1] == ins[1]);
                    assert((code + ins)[code.len() as int + 2] == ins[2]);
                    assert(self.current_chunk.lines@ =~= old(self).current_chunk.lines@
                        + repeated(old(self).previous.line, 3));
                    Self::lemma_emitted(old(self), self, ins, open);
                }
            },
            Err(e) => {
                self.handle_error(e);
                proof {
                    assert(self.current_chunk.code@ =~= old(self).current_chunk.code@ + seq![
                        OpCode::Loop.to_byte(),
                    ]);
                    assert(self.current_chunk.lines@ =~= old(self).current_chunk.lines@
                        + repeated(old(self).previous.line, 1));
                }
            },
        }
    }

    /// The instruction that a literal keyword compiles to.
    pub open spec fn literal_code(token_type: TokenType) -> Seq<u8> {
        match token_type {
            TokenType::False => seq![OpCode::False.to_byte()],
            TokenType::Nil => seq![OpCode::Nil.to_byte()],
            TokenType::True => seq![OpCode::True.to_byte()],
            _ => Seq::empty(),
        }
    }

    /// Compiles `false`, `nil` or `true`, whichever was just read.
    pub(crate) fn literal(&mut self, Ghost(open): Ghost<Set<int>>)
        requires
            old(self).inv(open),
            old(self).previous.token_type == TokenType::False || old(self).previous.token_type
                == TokenType::Nil || old(self).previous.token_type == TokenType::True,
        ensures
            final(self).inv(open),
            emitted(old(self), final(self), Self::literal_code(old(self).previous.token_type)),
    {
        match self.previous.token_type {
            TokenType::False => self.emit_op(OpCode::False, Ghost(open)),
            TokenType::Nil => self.emit_op(OpCode::Nil, Ghost(open)),
            _ => self.emit_op(OpCode::True, Ghost(open)),
        };
    }

    /// Adds a constant and emits the instruction that loads it, keeping the
    /// invariant.
    pub(crate) fn load_constant(
        &mut self,
        value: Value,
        Ghost(written): Ghost<Constant>,
        Ghost(open): Ghost<Set<int>>,
    )
        requires
            old(self).inv(open),
        ensures
            final(self).current_chunk.lines@ == old(self).current_chunk.lines@ + repeated(
                old(self).previous.line,
                2,
            ),
            final(self).typing@.pool == old(self).typing@.pool.push(written),
            old(self).current_chunk.constants@.len() <= 255 ==> final(self).same_but_code(
                old(self),
            ),
            final(self).inv(open),
            final(self).current == old(self).current,
            final(self).previous == old(self).previous,
            final(self).current_chunk.constants@ == old(self).current_chunk.constants@.push(value),
            final(self).current_chunk.code@ == old(self).current_chunk.code@ + seq![
                OpCode::Constant.to_byte(),
                if old(self).current_chunk.constants@.len() <= 255 {
                    old(self).current_chunk.constants@.len() as u8
                } else {
                    0u8
                },
            ],
            final(self).keeps_errors(old(self)),
            old(self).current_chunk.constants@.len() > 255 ==> final(self).had_error,
            old(self).current_chunk.constants@.len() > 255 ==> final(self).told(
                old(self),
                "Too many constants in one chunk."@,
                old(self).previous.lexeme@,
                old(self).previous.line as int,
            ),
            extends(&old(self).current_chunk, &final(self).current_chunk),
            lifts(old(self), final(self), 1),
            !final(self).had_error ==> keeps_typing(
                old(self).typing@,
                final(self).typing@,
                old(self).current_chunk.code@.len() as int,
            ),
    {
        self.emit_constant(value);
        let ghost pooled = Typing {
            texts: texts_of(self.current_chunk.constants@),
            pool: old(self).typing@.pool.push(written),
            ..old(self).typing@
        };
        self.typing = Ghost(pooled.after(OpCode::Constant.to_byte(), 2));
        proof {
            let code = old(self).current_chunk.code@;
            let h = old(self).typing@;
            let ins = seq![
                OpCode::Constant.to_byte(),
                old(self).current_chunk.constants@.len() as u8,
            ];
            assert(self.current_chunk.lines@ =~= old(self).current_chunk.lines@ + repeated(
                old(self).previous.line,
                2,
            ));
            if !self.had_error {
                lemma_typed_pool(code, h, pooled.texts, pooled.pool, open);
                lemma_typed_append(code, ins, pooled, open);
                assert forall|b: int| 0 <= b <= code.len() implies (#[trigger] self.typing@.of(b))
                    == h.of(b) by {
                    lemma_after_of(pooled, ins[0], 2, b);
                }
            }
        }
    }

    /// Compiles the number literal that was just read: the callback gives
    /// the bit pattern of the double that the text denotes.
    pub(crate) fn number<F: Fn(String) -> u64>(&mut self, to_number: &F, Ghost(open): Ghost<Set<int>>)
        requires
            old(self).inv(open),
            reads_all(to_number),
            numbered(old(self), to_number),
        ensures
            numbered(final(self), to_number),
            final(self).inv(open),
            final(self).current == old(self).current,
            final(self).previous == old(self).previous,
            final(self).keeps_errors(old(self)),
            final(self).current_chunk.constants@.len() == old(self).current_chunk.constants@.len()
                + 1,
            final(self).current_chunk.constants@.drop_last() == old(self).current_chunk.constants@,
            final(self).current_chunk.constants@.last() is Number,
            final(self).typing@.pool == old(self).typing@.pool.push(
                Constant::Number(old(self).previous.lexeme@),
            ),
            final(self).current_chunk.lines@ == old(self).current_chunk.lines@ + repeated(
                old(self).previous.line,
                2,
            ),
            old(self).current_chunk.constants@.len() <= 255 ==> final(self).same_but_code(
                old(self),
            ),
            old(self).current_chunk.constants@.len() > 255 ==> final(self).had_error,
            old(self).current_chunk.constants@.len() > 255 ==> final(self).told(
                old(self),
                "Too many constants in one chunk."@,
                old(self).previous.lexeme@,
                old(self).previous.line as int,
            ),
            call_ensures(
                to_number,
                (old(self).previous.lexeme,),
                final(self).current_chunk.constants@.last()->Number_0,
            ),
            final(self).current_chunk.code@ == old(self).current_chunk.code@ + seq![
                OpCode::Constant.to_byte(),
                if old(self).current_chunk.constants@.len() <= 255 {
                    old(self).current_chunk.constants@.len() as u8
                } else {
                    0u8
                },
            ],
            extends(&old(self).current_chunk, &final(self).current_chunk),
            lifts(old(self), final(self), 1),
            !final(self).had_error ==> keeps_typing(
                old(self).typing@,
                final(self).typing@,
                old(self).current_chunk.code@.len() as int,
            ),
    {
        let text = self.previous.lexeme.clone();
        let ghost read = text;
        let value = to_number(text);
        self.load_constant(
            Value::Number(value),
            Ghost(Constant::Number(self.previous.lexeme@)),
            Ghost(open),
        );
        proof {
            assert(self.current_chunk.constants@.drop_last() =~= old(self).current_chunk.constants@);
            if !self.had_error {
                assert(read@ == old(self).previous.lexeme@ && call_ensures(
                    to_number,
                    (read,),
                    value,
                ));
                lemma_pool_push(
                    old(self).current_chunk.constants@,
                    old(self).typing@.pool,
                    Value::Number(value),
                    Constant::Number(old(self).previous.lexeme@),
                    to_number,
                );
            }
        }
    }

    /// Compiles the string literal that was just read: the constant is the
    /// text between the quotes.
    pub(crate) fn string(&mut self, Ghost(open): Ghost<Set<int>>)
        requires
            old(self).inv(open),
            old(self).previous.lexeme@.len() >= 2,
        ensures
            final(self).inv(open),
            final(self).current == old(self).current,
            final(self).previous == old(self).previous,
            final(self).keeps_errors(old(self)),
            final(self).current_chunk.constants@.len() == old(self).current_chunk.constants@.len()
                + 1,
            final(self).current_chunk.constants@.drop_last() == old(self).current_chunk.constants@,
            final(self).current_chunk.constants@.last()@ == crate::value::Datum::Text(
                old(self).previous.lexeme@.subrange(1, old(self).previous.lexeme@.len() - 1),
            ),
            final(self).typing@.pool == old(self).typing@.pool.push(
                Constant::Text(
                    old(self).previous.lexeme@.subrange(1, old(self).previous.lexeme@.len() - 1),
                ),
            ),
            final(self).current_chunk.lines@ == old(self).current_chunk.lines@ + repeated(
                old(self).previous.line,
                2,
            ),
            old(self).current_chunk.constants@.len() <= 255 ==> final(self).same_but_code(
                old(self),
            ),
            old(self).current_chunk.constants@.len() > 255 ==> final(self).had_error,
            old(self).current_chunk.constants@.len() > 255 ==> final(self).told(
                old(self),
                "Too many constants in one chunk."@,
                old(self).previous.lexeme@,
                old(self).previous.line as int,
            ),
            final(self).current_chunk.code@ == old(self).current_chunk.code@ + seq![
                OpCode::Constant.to_byte(),
                if old(self).current_chunk.constants@.len() <= 255 {
                    old(self).current_chunk.constants@.len() as u8
                } else {
                    0u8
                },
            ],
            extends(&old(self).current_chunk, &final(self).current_chunk),
            lifts(old(self), final(self), 1),
            !final(self).had_error ==> keeps_typing(
                old(self).typing@,
                final(self).typing@,
                old(self).current_chunk.code@.len() as int,
            ),
    {
        let text = self.previous.lexeme.as_str();
        let len = text.unicode_len();
        let inner = String::from_str(text.substring_char(1, len - 1));
        self.load_constant(Value::String(inner), Ghost(Constant::Text(inner@)), Ghost(open));
        proof {
            assert(self.current_chunk.constants@.drop_last() =~= old(self).current_chunk.constants@);
        }
    }

    /// Adds the name of a variable to the pool of constants.
    pub(crate) fn identifier_constant(&mut self, name: Token) -> (index: u8)
        ensures
            final(self).current == old(self).current,
            final(self).previous == old(self).previous,
            final(self).typing@ == (Typing {
                texts: texts_of(final(self).current_chunk.constants@),
                pool: old(self).typing@.pool.push(Constant::Text(name.lexeme@)),
                ..old(self).typing@
            }),
            old(self).current_chunk.constants@.len() <= 255 ==> index
                < final(self).typing@.texts.len() && final(self).typing@.texts[index as int],
            final(self).current_chunk.code@ == old(self).current_chunk.code@,
            final(self).current_chunk.lines@ == old(self).current_chunk.lines@,
            final(self).current_chunk.constants@.len() == old(self).current_chunk.constants@.len()
                + 1,
            final(self).current_chunk.constants@.drop_last() == old(self).current_chunk.constants@,
            final(self).current_chunk.constants@.last()@ == crate::value::Datum::Text(name.lexeme@),
            old(self).current_chunk.constants@.len() <= 255 ==> index == old(
                self,
            ).current_chunk.constants@.len() && final(self).same_but_code(old(self)),
            old(self).current_chunk.constants@.len() > 255 ==> index == 0 && final(self).told(
                old(self),
                "Too many constants in one chunk."@,
                old(self).previous.lexeme@,
                old(self).previous.line as int,
            ),
            forall|open: Set<int>| #[trigger] old(self).inv(open) ==> final(self).inv(open),
            final(self).keeps_errors(old(self)),
    {
        let ghost written = Constant::Text(name.lexeme@);
        let index = self.make_constant(Value::String(name.lexeme));
        let ghost pooled = Typing {
            texts: texts_of(self.current_chunk.constants@),
            pool: old(self).typing@.pool.push(written),
            ..old(self).typing@
        };
        self.typing = Ghost(pooled);
        proof {
            assert(self.current_chunk.constants@.drop_last() =~= old(self).current_chunk.constants@);
            if old(self).current_chunk.constants@.len() <= 255 {
                assert(self.current_chunk.constants@[index as int]
                    == self.current_chunk.constants@.last());
                assert(pooled.texts[index as int]);
            }
            assert forall|open: Set<int>| #[trigger] old(self).inv(open) implies self.inv(open) by {
                if !self.had_error {
                    lemma_typed_pool(
                        old(self).current_chunk.code@,
                        old(self).typing@,
                        pooled.texts,
                        pooled.pool,
                        open,
                    );
                }
            }
        }
        index
    }

    /// Finishes the declaration of a variable: a global is defined at run
    /// time by an instruction that takes its value off the stack; a local
    /// needs none: its value stays on the stack as its slot, and it is
    /// marked initialised.
    pub(crate) fn define_variable(
        &mut self,
        compiler: &mut Compiler,
        global: Option<u8>,
        Ghost(open): Ghost<Set<int>>,
    )
        requires
            old(self).inv(open),
            global is None ==> old(compiler).locals@.len() > 0,
            !old(self).had_error && global is Some ==> old(self).typing@.here >= 1,
            !old(self).had_error && global is Some ==> global->0 < old(
                self,
            ).current_chunk.constants@.len() && old(self).current_chunk.constants@[global->0 as int]
                is String,
        ensures
            final(self).inv(open),
            final(self).same_but_code(old(self)),
            final(self).current_chunk.constants@ == old(self).current_chunk.constants@,
            final(compiler).scope_depth == old(compiler).scope_depth,
            final(compiler).locals@.len() == old(compiler).locals@.len(),
            extends(&old(self).current_chunk, &final(self).current_chunk),
            match global {
                Some(g) => {
                    &&& final(compiler).locals@ == old(compiler).locals@
                    &&& emitted(old(self), final(self), seq![OpCode::DefineGlobal.to_byte(), g])
                },
                None => {
                    &&& final(self).current_chunk.code@ == old(self).current_chunk.code@
                    &&& final(self).current_chunk.lines@ == old(self).current_chunk.lines@
                    &&& final(self).typing@ == old(self).typing@
                    &&& final(compiler).locals@.drop_last() == old(compiler).locals@.drop_last()
                    &&& final(compiler).locals@.last().name == old(compiler).locals@.last().name
                    &&& final(compiler).locals@.last().depth == old(compiler).scope_depth
                },
            },
    {
        proof {
            if !self.had_error && global is Some {
                assert(self.typing@.texts[global->0 as int]);
            }
        }
        match global {
            Some(g) => self.emit_op_with(OpCode::DefineGlobal, g, Ghost(open)),
            None => {
                //No bytecode needed at runtime for local variables, just marked as initialised
                let last = compiler.locals.pop();
                match last {
                    Some(local) => {
                        let marked = Local { name: local.name, depth: compiler.scope_depth };
                        compiler.locals.push(marked);
                        proof {
                            assert(compiler.locals@.drop_last() =~= old(
                                compiler,
                            ).locals@.drop_last());
                        }
                    },
                    None => {},
                }
            },
        }
    }
}


impl Compiler {
    /// Every local is initialised and belongs to a block that is open, and
    /// the locals of outer blocks come before those of inner blocks.
    pub open spec fn tidy(&self) -> bool {
        &&& forall|i: int|
            0 <= i < self.locals@.len() ==> 2 <= (#[trigger] self.locals@[i]).depth.rank()
                <= self.scope_depth.rank()
        &&& forall|i: int, j: int|
            0 <= i < j < self.locals@.len() ==> (#[trigger] self.locals@[i]).depth.rank() <= (
            #[trigger] self.locals@[j]).depth.rank()
    }
}

impl Parser {
    /// Notes that a statement of the top level begins behind the code
    /// emitted so far.
    pub(crate) fn mark(&mut self, Ghost(open): Ghost<Set<int>>)
        requires
            old(self).inv(open),
            open == Set::<int>::empty(),
            !old(self).had_error ==> old(self).typing@.here == 0,
        ensures
            final(self).inv(open),
            final(self).same_but_code(old(self)),
            final(self).current_chunk.same(&old(self).current_chunk),
            final(self).typing@ == (Typing {
                marks: old(self).typing@.marks.insert(old(self).current_chunk.code@.len() as int),
                ..old(self).typing@
            }),
    {
        proof {
            if !self.had_error {
                lemma_typed_mark(self.current_chunk.code@, self.typing@, open);
            }
        }
        self.typing = Ghost(
            Typing {
                marks: self.typing@.marks.insert(self.current_chunk.code@.len() as int),
                ..self.typing@
            },
        );
    }
}

/// Compiles the source into a chunk, or returns the diagnostics of what is
/// wrong with it. `to_number` gives the bit pattern of the double that the
/// text of a number literal denotes.
///
/// A source compiles exactly if it is a program, and its chunk is the chunk
/// of that program: the code and the lines are those that the definition of
/// programs gives, and the constants are what was written, the numbers as
/// the callback reads them. For a source that is no program, the
/// diagnostics are the errors that the definition of programs gives, in
/// their order.
///
/// The chunk is well-formed: every code byte has its line, the code is made
/// of whole instructions and ends with `Return`, every jump lands on the
/// start of an instruction, and the pool holds at most 256 constants. Its
/// instructions fit together in the height of the stack that they expect
/// and leave, and in front of every statement of the top level, and in
/// front of the final `Return`, that height is the height at the start of
/// the program.
#[verifier::spinoff_prover]
pub fn compile<F: Fn(String) -> u64>(source: &str, to_number: &F) -> (result: Result<
    Chunk,
    Vec<RoxError>,
>)
    requires
        source@.len() < i32::MAX,
        reads_all(to_number),
    ensures
        match result {
            Ok(chunk) => {
                &&& program::program(source@) is Ok
                &&& chunk.code@ == program::program(source@)->Ok_0.code
                &&& chunk.lines@ == program::program(source@)->Ok_0.lines
                &&& pool_fits(chunk.constants@, program::program(source@)->Ok_0.pool, to_number)
                &&& chunk.aligned()
                &&& well_formed(chunk.code@)
                &&& chunk.code@.len() > 0
                &&& chunk.code@.last() == OpCode::Return.to_byte()
                &&& chunk.constants@.len() <= MAX_CONSTANTS
                &&& exists|h: Typing|
                    balanced(chunk.code@, h) && h.texts == texts_of(chunk.constants@)
            },
            Err(errors) => {
                &&& program::program(source@) == Err::<program::Program, Seq<Failure>>(
                    failures(errors@),
                )
                &&& errors@.len() > 0
            },
        },
{
    reveal(program::declarations);
    let mut scanner = Scanner::new(source);
    let mut parser = Parser::new();
    let mut compiler = Compiler::new();
    let ghost open = Set::<int>::empty();
    let ghost text = source@;
    proof {
        assert(texts_of(parser.current_chunk.constants@) =~= Seq::<bool>::empty());
        assert(variables(compiler.locals@) =~= Seq::<Variable>::empty());
        assert(failures(parser.errors@) =~= Seq::<Failure>::empty());
        assert(state(&parser, &scanner, &compiler) == program::initial());
        lemma_rest(&parser, &scanner, &compiler);
    }

    advance(&mut parser, &mut scanner);
    let ghost opened = state(&parser, &scanner, &compiler);
    let ghost whole = program::declarations(text, opened);
    proof {
        lemma_rest(&parser, &scanner, &compiler);
        assert(opened == program::advance(text, program::initial()));
    }

    loop
        invariant_except_break
            steady(&parser, &scanner, &compiler, open),
            settled(&parser, &compiler),
            compiler.scope_depth == Depth::Global,
            open == Set::<int>::empty(),
            reads_all(to_number),
            numbered(&parser, to_number),
            text == scanner.source@,
            !parser.had_error && parser.current_chunk.code@.len() > 0
                ==> parser.typing@.marks.contains(0),
            whole == program::declarations(text, state(&parser, &scanner, &compiler)),
        ensures
            steady(&parser, &scanner, &compiler, open),
            settled(&parser, &compiler),
            compiler.scope_depth == Depth::Global,
            numbered(&parser, to_number),
            !parser.had_error && parser.current_chunk.code@.len() > 0
                ==> parser.typing@.marks.contains(0),
            whole == state(&parser, &scanner, &compiler),
        decreases remaining(&parser, &scanner),
    {
        reveal(program::declarations);
        proof {
            lemma_rest(&parser, &scanner, &compiler);
        }
        if match_token(&mut parser, &mut scanner, TokenType::EOF) {
            proof {
                lemma_rest(&parser, &scanner, &compiler);
            }
            break ;
        }
        proof {
            if !parser.had_error {
                lemma_no_locals_outside(&compiler);
            }
        }
        parser.mark(Ghost(open));
        proof {
            lemma_rest(&parser, &scanner, &compiler);
        }
        declaration(&mut parser, &mut scanner, &mut compiler, to_number, Ghost(open));
        proof {
            lemma_rest(&parser, &scanner, &compiler);
        }
    }

    proof {
        if !parser.had_error {
            lemma_no_locals_outside(&compiler);
        }
    }
    parser.mark(Ghost(open));
    let ghost at_end = parser;
    let ghost last = state(&parser, &scanner, &compiler);
    parser.end_compiler();
    parser.typing = Ghost(parser.typing@.after(OpCode::Return.to_byte(), 1));
    proof {
        let code = at_end.current_chunk.code@;
        assert(code.push(OpCode::Return.to_byte()) =~= code + seq![OpCode::Return.to_byte()]);
        assert(parser.current_chunk.lines@ =~= at_end.current_chunk.lines@ + repeated(
            at_end.previous.line,
            1,
        ));
        Parser::lemma_emitted(&at_end, &parser, seq![OpCode::Return.to_byte()], open);
        lemma_rest(&parser, &scanner, &compiler);
        assert(state(&parser, &scanner, &compiler) == program::emit_op(last, OpCode::Return));
        assert(state(&parser, &scanner, &compiler) == program::compiled(text));
    }

    if !parser.had_error {
        proof {
            let h = parser.typing@;
            let code = parser.current_chunk.code@;
            assert(h.marks.contains(code.len() - 1));
            assert(balanced(code, h) && h.texts == texts_of(parser.current_chunk.constants@));
        }
        Ok(parser.current_chunk)
    } else {
        Err(parser.errors)
    }
}

} // verus!
