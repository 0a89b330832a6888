//! Expressions: the part of the compiler that reads operators by their
//! binding strength.
use crate::chunk::OpCode;
use crate::compiler::{
    advance, advanced, clashes, expect, follows, get_rule, lemma_lookup_innermost,
    lemma_operators_have_handlers, lemma_pool_push, lemma_rest, lemma_variables_clashes,
    lemma_variables_lookup, lifts, match_token, numbered, reads_all, remaining, rule_of, state,
    steady, variables, Compiler, Depth, Handler, Parser, Precedence,
};
use crate::program;
use crate::program::{Constant, Variable};
use crate::scanner::{Scanner, Token, TokenType};
use crate::statements::{expression, floored};
use crate::RoxError;
use vstd::prelude::*;

verus! {

impl Parser {
    /// Compiles a variable named by the token just read.
    #[verifier::spinoff_prover]
    fn variable<F: Fn(String) -> u64>(
        &mut self,
        scanner: &mut Scanner,
        compiler: &mut Compiler,
        can_assign: bool,
        to_number: &F,
        Ghost(open): Ghost<Set<int>>,
    )
        requires
            steady(old(self), old(scanner), old(compiler), open),
            reads_all(to_number),
            floored(old(self), old(compiler), 0),
            numbered(old(self), to_number),
        ensures
            steady(final(self), final(scanner), final(compiler), open),
            advanced(
                old(self),
                old(scanner),
                old(compiler),
                final(self),
                final(scanner),
                final(compiler),
            ),
            final(compiler).locals@ == old(compiler).locals@,
            lifts(old(self), final(self), 1),
            follows(
                program::variable(
                    old(scanner).source@,
                    state(old(self), old(scanner), old(compiler)),
                    can_assign,
                ),
                final(self),
                final(scanner),
                final(compiler),
            ),
            numbered(final(self), to_number),
        decreases remaining(old(self), old(scanner)), 3int,
    {
        let name = self.previous.clone();
        self.named_variable(scanner, compiler, name, can_assign, to_number, Ghost(open));
    }

    /// Compiles a read of the variable `name`, or, where an assignment is
    /// allowed and `=` follows, the assignment to it. A name that resolves to
    /// a local is addressed by its slot, any other name as a global.
    #[verifier::spinoff_prover]
    fn named_variable<F: Fn(String) -> u64>(
        &mut self,
        scanner: &mut Scanner,
        compiler: &mut Compiler,
        name: Token,
        can_assign: bool,
        to_number: &F,
        Ghost(open): Ghost<Set<int>>,
    )
        requires
            steady(old(self), old(scanner), old(compiler), open),
            reads_all(to_number),
            floored(old(self), old(compiler), 0),
            numbered(old(self), to_number),
            name@ == old(self).previous@,
        ensures
            steady(final(self), final(scanner), final(compiler), open),
            advanced(
                old(self),
                old(scanner),
                old(compiler),
                final(self),
                final(scanner),
                final(compiler),
            ),
            final(compiler).locals@ == old(compiler).locals@,
            lifts(old(self), final(self), 1),
            follows(
                program::variable(
                    old(scanner).source@,
                    state(old(self), old(scanner), old(compiler)),
                    can_assign,
                ),
                final(self),
                final(scanner),
                final(compiler),
            ),
            numbered(final(self), to_number),
        decreases remaining(old(self), old(scanner)), 2int,
    {
        reveal(program::variable);
        let ghost source = scanner.source@;
        let ghost entry = state(self, scanner, compiler);
        proof {
            lemma_variables_lookup(compiler.locals@, name.lexeme@);
            lemma_lookup_innermost(compiler.locals@, name.lexeme@);
            lemma_rest(self, scanner, compiler);
        }
        let arg = match compiler.resolve_local(&name) {
            Ok(l) => l,
            Err(e) => {
                self.handle_error(e);
                return ;
            },
        };

        let get_op;
        let set_op;
        let operand: u8;
        match arg {
            Some(slot) => {
                get_op = OpCode::GetLocal;
                set_op = OpCode::SetLocal;
                operand = slot;
                proof {
                    assert(!self.had_error ==> operand < self.typing@.here);
                }
            },
            None => {
                let ghost written = Constant::Text(name.lexeme@);
                operand = self.identifier_constant(name);
                get_op = OpCode::GetGlobal;
                set_op = OpCode::SetGlobal;
                proof {
                    if !self.had_error {
                        lemma_pool_push(
                            old(self).current_chunk.constants@,
                            old(self).typing@.pool,
                            self.current_chunk.constants@.last(),
                            written,
                            to_number,
                        );
                        assert(self.current_chunk.constants@ =~= old(
                            self,
                        ).current_chunk.constants@.push(self.current_chunk.constants@.last()));
                    }
                }
            },
        }
        let ghost named = *self;
        let ghost named_state = state(self, scanner, compiler);
        assert(named_state == if arg is Some {
            entry
        } else {
            program::pooled(entry, Constant::Text(entry.previous.lexeme))
        });

        if can_assign && match_token(self, scanner, TokenType::Equal) {
            proof {
                lemma_rest(self, scanner, compiler);
            }
            expression(self, scanner, compiler, to_number, Ghost(open));
            proof {
                if !self.had_error && arg is None {
                    assert(self.current_chunk.constants@[operand as int]
                        == named.current_chunk.constants@[operand as int]);
                    assert(named.typing@.texts[operand as int]);
                    assert(self.typing@.texts[operand as int]);
                }
            }
            self.emit_op_with(set_op, operand, Ghost(open));
        } else {
            self.emit_op_with(get_op, operand, Ghost(open));
        }
    }

    /// Compiles the operand of a prefix operator, then the operator.
    #[verifier::spinoff_prover]
    fn unary<F: Fn(String) -> u64>(
        &mut self,
        scanner: &mut Scanner,
        compiler: &mut Compiler,
        to_number: &F,
        Ghost(open): Ghost<Set<int>>,
    )
        requires
            steady(old(self), old(scanner), old(compiler), open),
            reads_all(to_number),
            old(self).previous.token_type == TokenType::Bang || old(self).previous.token_type
                == TokenType::Minus,
            floored(old(self), old(compiler), 0),
            numbered(old(self), to_number),
        ensures
            steady(final(self), final(scanner), final(compiler), open),
            advanced(
                old(self),
                old(scanner),
                old(compiler),
                final(self),
                final(scanner),
                final(compiler),
            ),
            final(compiler).locals@ == old(compiler).locals@,
            lifts(old(self), final(self), 1),
            follows(
                program::prefix(
                    old(scanner).source@,
                    state(old(self), old(scanner), old(compiler)),
                    Handler::Unary,
                    false,
                ),
                final(self),
                final(scanner),
                final(compiler),
            ),
            numbered(final(self), to_number),
        decreases remaining(old(self), old(scanner)), 2int,
    {
        reveal(program::prefix);
        let ghost source = scanner.source@;
        let ghost entry = state(self, scanner, compiler);
        let operator_type = self.previous.token_type;

        self.parse_precedence(scanner, compiler, Precedence::Unary, to_number, Ghost(open));
        let ghost operand = state(self, scanner, compiler);
        assert(operand == program::parse_precedence(source, entry, Precedence::Unary));

        match operator_type {
            TokenType::Bang => self.emit_op(OpCode::Not, Ghost(open)),
            _ => self.emit_op(OpCode::Negate, Ghost(open)),
        }
        assert(state(self, scanner, compiler) == program::emit_op(
            operand,
            if operator_type == TokenType::Bang {
                OpCode::Not
            } else {
                OpCode::Negate
            },
        ));
    }

    /// Compiles the right operand of a binary operator, then the operator.
    /// The operand is parsed one level above the operator's own, which makes
    /// the operator associate to the left.
    #[verifier::spinoff_prover]
    fn binary<F: Fn(String) -> u64>(
        &mut self,
        scanner: &mut Scanner,
        compiler: &mut Compiler,
        to_number: &F,
        Ghost(open): Ghost<Set<int>>,
    )
        requires
            steady(old(self), old(scanner), old(compiler), open),
            reads_all(to_number),
            rule_of(old(self).previous.token_type).infix == Some(Handler::Binary),
            floored(old(self), old(compiler), 1),
            numbered(old(self), to_number),
        ensures
            steady(final(self), final(scanner), final(compiler), open),
            advanced(
                old(self),
                old(scanner),
                old(compiler),
                final(self),
                final(scanner),
                final(compiler),
            ),
            final(compiler).locals@ == old(compiler).locals@,
            lifts(old(self), final(self), 0),
            follows(
                program::infix(
                    old(scanner).source@,
                    state(old(self), old(scanner), old(compiler)),
                ),
                final(self),
                final(scanner),
                final(compiler),
            ),
            numbered(final(self), to_number),
        decreases remaining(old(self), old(scanner)), 2int,
    {
        reveal(program::infix);
        let ghost source = scanner.source@;
        let ghost entry = state(self, scanner, compiler);
        let operator_type = self.previous.token_type;

        proof {
            lemma_operators_have_handlers(operator_type);
        }
        let stronger = get_rule(operator_type).precedence.next();
        self.parse_precedence(scanner, compiler, stronger, to_number, Ghost(open));
        let ghost operand = state(self, scanner, compiler);
        assert(operand == program::parse_precedence(source, entry, stronger));

        match operator_type {
            TokenType::BangEqual => {
                self.emit_op(OpCode::Equal, Ghost(open));
                assert(state(self, scanner, compiler) == program::emit_op(operand, OpCode::Equal));
                self.emit_op(OpCode::Not, Ghost(open));
            },
            TokenType::EqualEqual => self.emit_op(OpCode::Equal, Ghost(open)),
            TokenType::Greater => self.emit_op(OpCode::Greater, Ghost(open)),
            TokenType::GreaterEqual => {
                self.emit_op(OpCode::Less, Ghost(open));
                assert(state(self, scanner, compiler) == program::emit_op(operand, OpCode::Less));
                self.emit_op(OpCode::Not, Ghost(open));
            },
            TokenType::Less => self.emit_op(OpCode::Less, Ghost(open)),
            TokenType::LessEqual => {
                self.emit_op(OpCode::Greater, Ghost(open));
                assert(state(self, scanner, compiler) == program::emit_op(
                    operand,
                    OpCode::Greater,
                ));
                self.emit_op(OpCode::Not, Ghost(open));
            },
            TokenType::Plus => self.emit_op(OpCode::Add, Ghost(open)),
            TokenType::Minus => self.emit_op(OpCode::Subtract, Ghost(open)),
            TokenType::Star => self.emit_op(OpCode::Multiple, Ghost(open)),
            _ => self.emit_op(OpCode::Divide, Ghost(open)),
        }
        assert(state(self, scanner, compiler) == program::operator(operand, operator_type));
    }

    /// Compiles the right side of `and`: if the left side is falsey it stays
    /// on the stack as the result and the right side is jumped over.
    #[verifier::spinoff_prover]
    fn and<F: Fn(String) -> u64>(
        &mut self,
        scanner: &mut Scanner,
        compiler: &mut Compiler,
        to_number: &F,
        Ghost(open): Ghost<Set<int>>,
    )
        requires
            steady(old(self), old(scanner), old(compiler), open),
            reads_all(to_number),
            floored(old(self), old(compiler), 1),
            numbered(old(self), to_number),
            rule_of(old(self).previous.token_type).infix == Some(Handler::And),
        ensures
            steady(final(self), final(scanner), final(compiler), open),
            advanced(
                old(self),
                old(scanner),
                old(compiler),
                final(self),
                final(scanner),
                final(compiler),
            ),
            final(compiler).locals@ == old(compiler).locals@,
            lifts(old(self), final(self), 0),
            follows(
                program::infix(
                    old(scanner).source@,
                    state(old(self), old(scanner), old(compiler)),
                ),
                final(self),
                final(scanner),
                final(compiler),
            ),
            numbered(final(self), to_number),
        decreases remaining(old(self), old(scanner)), 2int,
    {
        reveal(program::infix);
        let ghost source = scanner.source@;
        let ghost entry = state(self, scanner, compiler);
        let end_jump = self.start_jump(OpCode::JumpIfFalse, Ghost(open));
        let ghost inner = open.insert(end_jump - 1);
        assert(state(self, scanner, compiler) == program::emit_jump(entry, OpCode::JumpIfFalse));

        self.emit_op(OpCode::Pop, Ghost(inner));
        let ghost begun = state(self, scanner, compiler);
        assert(begun == program::emit_op(
            program::emit_jump(entry, OpCode::JumpIfFalse),
            OpCode::Pop,
        ));
        self.parse_precedence(scanner, compiler, Precedence::And, to_number, Ghost(inner));
        let ghost right = state(self, scanner, compiler);
        assert(right == program::parse_precedence(source, begun, Precedence::And));

        self.finish_jump(end_jump, Ghost(inner));
        proof {
            assert(inner.remove(end_jump - 1) =~= open);
            assert(state(self, scanner, compiler) == program::patch(right, entry.code.len() as int));
        }
    }

    /// Compiles the right side of `or`: if the left side is truthy it stays
    /// on the stack as the result and the right side is jumped over.
    #[verifier::spinoff_prover]
    fn or<F: Fn(String) -> u64>(
        &mut self,
        scanner: &mut Scanner,
        compiler: &mut Compiler,
        to_number: &F,
        Ghost(open): Ghost<Set<int>>,
    )
        requires
            steady(old(self), old(scanner), old(compiler), open),
            reads_all(to_number),
            floored(old(self), old(compiler), 1),
            numbered(old(self), to_number),
            rule_of(old(self).previous.token_type).infix == Some(Handler::Or),
        ensures
            steady(final(self), final(scanner), final(compiler), open),
            advanced(
                old(self),
                old(scanner),
                old(compiler),
                final(self),
                final(scanner),
                final(compiler),
            ),
            final(compiler).locals@ == old(compiler).locals@,
            lifts(old(self), final(self), 0),
            follows(
                program::infix(
                    old(scanner).source@,
                    state(old(self), old(scanner), old(compiler)),
                ),
                final(self),
                final(scanner),
                final(compiler),
            ),
            numbered(final(self), to_number),
        decreases remaining(old(self), old(scanner)), 2int,
    {
        reveal(program::infix);
        let ghost source = scanner.source@;
        let ghost entry = state(self, scanner, compiler);
        let else_jump = self.start_jump(OpCode::JumpIfFalse, Ghost(open));
        let ghost first = open.insert(else_jump - 1);
        assert(state(self, scanner, compiler) == program::emit_jump(entry, OpCode::JumpIfFalse));
        let end_jump = self.start_jump(OpCode::Jump, Ghost(first));
        let ghost both = first.insert(end_jump - 1);
        let ghost jumps = state(self, scanner, compiler);
        assert(jumps == program::emit_jump(
            program::emit_jump(entry, OpCode::JumpIfFalse),
            OpCode::Jump,
        ));

        self.finish_jump(else_jump, Ghost(both));
        let ghost inner = open.insert(end_jump - 1);
        let ghost landed = state(self, scanner, compiler);
        proof {
            assert(both.remove(else_jump - 1) =~= inner);
            assert(landed == program::patch(jumps, entry.code.len() as int));
        }
        self.emit_op(OpCode::Pop, Ghost(inner));
        let ghost begun = state(self, scanner, compiler);
        assert(begun == program::emit_op(landed, OpCode::Pop));

        self.parse_precedence(scanner, compiler, Precedence::Or, to_number, Ghost(inner));
        let ghost right = state(self, scanner, compiler);
        assert(right == program::parse_precedence(source, begun, Precedence::Or));
        self.finish_jump(end_jump, Ghost(inner));
        proof {
            assert(inner.remove(end_jump - 1) =~= open);
            assert(state(self, scanner, compiler) == program::patch(
                right,
                entry.code.len() as int + 3,
            ));
        }
    }

    /// Compiles what begins with the token just read, by the handler of that
    /// token.
    #[verifier::spinoff_prover]
    fn prefix<F: Fn(String) -> u64>(
        &mut self,
        scanner: &mut Scanner,
        compiler: &mut Compiler,
        handler: Handler,
        can_assign: bool,
        to_number: &F,
        Ghost(open): Ghost<Set<int>>,
    )
        requires
            steady(old(self), old(scanner), old(compiler), open),
            reads_all(to_number),
            rule_of(old(self).previous.token_type).prefix == Some(handler),
            floored(old(self), old(compiler), 0),
            numbered(old(self), to_number),
        ensures
            steady(final(self), final(scanner), final(compiler), open),
            advanced(
                old(self),
                old(scanner),
                old(compiler),
                final(self),
                final(scanner),
                final(compiler),
            ),
            final(compiler).locals@ == old(compiler).locals@,
            lifts(old(self), final(self), 1),
            follows(
                program::prefix(
                    old(scanner).source@,
                    state(old(self), old(scanner), old(compiler)),
                    handler,
                    can_assign,
                ),
                final(self),
                final(scanner),
                final(compiler),
            ),
            numbered(final(self), to_number),
        decreases remaining(old(self), old(scanner)), 4int,
    {
        reveal(program::prefix);
        let ghost source = scanner.source@;
        let ghost read = state(self, scanner, compiler);
        proof {
            lemma_rest(self, scanner, compiler);
        }
        match handler {
            Handler::Grouping => self.grouping(scanner, compiler, to_number, Ghost(open)),
            Handler::Unary => self.unary(scanner, compiler, to_number, Ghost(open)),
            Handler::Variable => self.variable(
                scanner,
                compiler,
                can_assign,
                to_number,
                Ghost(open),
            ),
            Handler::Text => {
                let ghost before = *self;
                self.string(Ghost(open));
                proof {
                    assert(state(self, scanner, compiler) == program::load(
                        read,
                        Constant::Text(
                            read.previous.lexeme.subrange(1, read.previous.lexeme.len() - 1),
                        ),
                    ));
                    if !self.had_error {
                        lemma_pool_push(
                            before.current_chunk.constants@,
                            before.typing@.pool,
                            self.current_chunk.constants@.last(),
                            self.typing@.pool.last(),
                            to_number,
                        );
                        assert(self.current_chunk.constants@ =~= before.current_chunk.constants@.push(
                            self.current_chunk.constants@.last(),
                        ));
                    }
                }
            },
            Handler::Number => {
                self.number(to_number, Ghost(open));
                assert(state(self, scanner, compiler) == program::load(
                    read,
                    Constant::Number(read.previous.lexeme),
                ));
            },
            Handler::Literal => {
                self.literal(Ghost(open));
                assert(state(self, scanner, compiler) == program::emit_op(
                    read,
                    program::literal_op(read.previous.token_type),
                ));
            },
            // No token begins an expression with the handler of an operator.
            Handler::Binary | Handler::And | Handler::Or => {},
        }
        proof {
            lemma_rest(self, scanner, compiler);
        }
    }

    /// Compiles the operations whose operators follow and bind at least as
    /// strongly as `precedence`: as long as the token looked at is such an
    /// operator, it is read and the rest of its operation is compiled.
    #[verifier::spinoff_prover]
    fn operations<F: Fn(String) -> u64>(
        &mut self,
        scanner: &mut Scanner,
        compiler: &mut Compiler,
        precedence: Precedence,
        to_number: &F,
        Ghost(open): Ghost<Set<int>>,
    )
        requires
            steady(old(self), old(scanner), old(compiler), open),
            reads_all(to_number),
            precedence != Precedence::Lowest,
            floored(old(self), old(compiler), 1),
            !old(self).had_error ==> old(self).typing@.pinned,
            numbered(old(self), to_number),
        ensures
            steady(final(self), final(scanner), final(compiler), open),
            advanced(
                old(self),
                old(scanner),
                old(compiler),
                final(self),
                final(scanner),
                final(compiler),
            ),
            final(compiler).locals@ == old(compiler).locals@,
            lifts(old(self), final(self), 0),
            follows(
                program::operations(
                    old(scanner).source@,
                    state(old(self), old(scanner), old(compiler)),
                    precedence,
                ),
                final(self),
                final(scanner),
                final(compiler),
            ),
            numbered(final(self), to_number),
        decreases remaining(old(self), old(scanner)), 4int,
    {
        reveal(program::operations);
        let ghost source = scanner.source@;
        let ghost entry = state(self, scanner, compiler);
        proof {
            lemma_rest(self, scanner, compiler);
        }
        while precedence.at_most(get_rule(self.current.token_type).precedence)
            invariant
                steady(self, scanner, compiler, open),
                advanced(old(self), old(scanner), old(compiler), self, scanner, compiler),
                compiler.locals@ == old(compiler).locals@,
                reads_all(to_number),
                precedence != Precedence::Lowest,
                lifts(old(self), self, 0),
                floored(old(self), old(compiler), 1),
                numbered(self, to_number),
                source == scanner.source@,
                program::operations(source, entry, precedence) == program::operations(
                    source,
                    state(self, scanner, compiler),
                    precedence,
                ),
            decreases remaining(self, scanner),
        {
            let ghost before = state(self, scanner, compiler);
            reveal(program::operations);
            proof {
                lemma_rest(self, scanner, compiler);
            }
            advance(self, scanner);
            let ghost operator = state(self, scanner, compiler);
            proof {
                lemma_rest(self, scanner, compiler);
                assert(operator == program::advance(source, before));
                assert(program::rest(source, operator) < program::rest(source, before));
            }
            match get_rule(self.previous.token_type).infix {
                Some(Handler::Binary) => self.binary(scanner, compiler, to_number, Ghost(open)),
                Some(Handler::And) => self.and(scanner, compiler, to_number, Ghost(open)),
                Some(Handler::Or) => self.or(scanner, compiler, to_number, Ghost(open)),
                // Every token that binds has one of these three handlers.
                _ => (),
            }
            proof {
                lemma_rest(self, scanner, compiler);
                assert(follows(program::infix(source, operator), self, scanner, compiler));
                assert(program::rest(source, state(self, scanner, compiler)) <= program::rest(
                    source,
                    operator,
                ));
                assert(program::operations(source, before, precedence) == program::operations(
                    source,
                    state(self, scanner, compiler),
                    precedence,
                ));
            }
        }

    }

    /// The core of the parser: compiles an expression whose operators all
    /// bind at least as strongly as `precedence`. Reads one token and
    /// compiles what begins with it; then, as long as the token looked at is
    /// an operator that binds strongly enough, reads it and compiles the rest
    /// of that operation.
    #[verifier::spinoff_prover]
    pub(crate) fn parse_precedence<F: Fn(String) -> u64>(
        &mut self,
        scanner: &mut Scanner,
        compiler: &mut Compiler,
        precedence: Precedence,
        to_number: &F,
        Ghost(open): Ghost<Set<int>>,
    )
        requires
            steady(old(self), old(scanner), old(compiler), open),
            reads_all(to_number),
            precedence != Precedence::Lowest,
            floored(old(self), old(compiler), 0),
            numbered(old(self), to_number),
        ensures
            steady(final(self), final(scanner), final(compiler), open),
            advanced(
                old(self),
                old(scanner),
                old(compiler),
                final(self),
                final(scanner),
                final(compiler),
            ),
            final(compiler).locals@ == old(compiler).locals@,
            old(self).current.token_type != TokenType::EOF ==> remaining(
                final(self),
                final(scanner),
            ) < remaining(old(self), old(scanner)),
            lifts(old(self), final(self), 1),
            follows(
                program::parse_precedence(
                    old(scanner).source@,
                    state(old(self), old(scanner), old(compiler)),
                    precedence,
                ),
                final(self),
                final(scanner),
                final(compiler),
            ),
            numbered(final(self), to_number),
        decreases remaining(old(self), old(scanner)), 0int,
    {
        reveal(program::parse_precedence);
        let ghost source = scanner.source@;
        let ghost entry = state(self, scanner, compiler);
        proof {
            lemma_rest(self, scanner, compiler);
        }
        advance(self, scanner);
        let ghost read = state(self, scanner, compiler);
        proof {
            lemma_rest(self, scanner, compiler);
            lemma_operators_have_handlers(self.previous.token_type);
            assert(read == program::advance(source, entry));
        }

        let prefix_rule = get_rule(self.previous.token_type).prefix;

        let prefix_rule = match prefix_rule {
            Some(f) => f,
            None => {
                let error = RoxError::new(
                    "Expect expression.",
                    self.previous.lexeme.clone(),
                    self.previous.line,
                );
                self.handle_error(error);
                return ;
            },
        };

        let can_assign = precedence.at_most(Precedence::Assignment);
        self.prefix(scanner, compiler, prefix_rule, can_assign, to_number, Ghost(open));
        let ghost begun = state(self, scanner, compiler);
        proof {
            lemma_rest(self, scanner, compiler);
            assert(begun == program::prefix(source, read, prefix_rule, can_assign));
        }
        self.operations(scanner, compiler, precedence, to_number, Ghost(open));
        let ghost operated = state(self, scanner, compiler);
        proof {
            lemma_rest(self, scanner, compiler);
            assert(operated == program::operations(source, begun, precedence));
        }

        if can_assign && match_token(self, scanner, TokenType::Equal) {
            let error = RoxError::new(
                "Invalid assignment target.",
                self.previous.lexeme.clone(),
                self.previous.line,
            );
            self.handle_error(error);
        }
        proof {
            lemma_rest(self, scanner, compiler);
            assert(state(self, scanner, compiler) == program::settled(source, can_assign, operated));
        }
    }

    /// Reads the name of a variable that is being declared and declares it.
    /// For a global the result is the index of the constant that holds its
    /// name; for a local there is none.
    #[verifier::spinoff_prover]
    pub(crate) fn parse_variable(
        &mut self,
        scanner: &mut Scanner,
        compiler: &mut Compiler,
        error_message: &str,
        Ghost(open): Ghost<Set<int>>,
    ) -> (global: Option<u8>)
        requires
            steady(old(self), old(scanner), old(compiler), open),
        ensures
            steady(final(self), final(scanner), final(compiler), open),
            advanced(
                old(self),
                old(scanner),
                old(compiler),
                final(self),
                final(scanner),
                final(compiler),
            ),
            global is None <==> old(compiler).scope_depth != Depth::Global,
            global is None ==> final(compiler).locals@.len() > 0,
            !final(self).had_error ==> final(self).typing@.here == old(self).typing@.here,
            !final(self).had_error ==> match global {
                Some(g) => final(compiler).locals@ == old(compiler).locals@ && g
                    < final(self).current_chunk.constants@.len()
                    && final(self).current_chunk.constants@[g as int] is String,
                None => final(compiler).locals@.len() == old(compiler).locals@.len() + 1
                    && final(compiler).locals@.drop_last() == old(compiler).locals@
                    && final(compiler).locals@.last().depth == Depth::Uninitialised,
            },
            follows(
                program::declared(
                    old(scanner).source@,
                    state(old(self), old(scanner), old(compiler)),
                    error_message@,
                ),
                final(self),
                final(scanner),
                final(compiler),
            ),
            !final(self).had_error && global is Some ==> global->0
                == final(self).typing@.pool.len() - 1,
            global is Some ==> global->0 == program::next_index(
                program::named(
                    old(scanner).source@,
                    state(old(self), old(scanner), old(compiler)),
                    error_message@,
                ),
            ),
            final(self).current_chunk.constants@.len() >= old(self).current_chunk.constants@.len(),
            !final(self).had_error ==> {
                ||| {
                    &&& final(self).current_chunk.constants@ == old(self).current_chunk.constants@
                    &&& final(self).typing@.pool == old(self).typing@.pool
                }
                ||| {
                    &&& final(self).typing@.pool.len() == old(self).typing@.pool.len() + 1
                    &&& final(self).typing@.pool.drop_last() == old(self).typing@.pool
                    &&& final(self).typing@.pool.last() is Text
                    &&& final(self).current_chunk.constants@.drop_last() == old(
                        self,
                    ).current_chunk.constants@
                    &&& final(self).current_chunk.constants@.last()@ == crate::value::Datum::Text(
                        final(self).typing@.pool.last()->Text_0,
                    )
                }
            },
    {
        let ghost source = scanner.source@;
        proof {
            lemma_rest(self, scanner, compiler);
        }
        expect(self, scanner, TokenType::Identifier, error_message);

        let ghost before = compiler.locals@;
        let ghost name = self.previous.lexeme@;
        let ghost line = self.previous.line;
        let ghost read = state(self, scanner, compiler);
        proof {
            lemma_rest(self, scanner, compiler);
            lemma_variables_clashes(before, name, compiler.scope_depth);
        }
        match compiler.declare_variable(self) {
            Ok(()) => {},
            Err(e) => {
                self.handle_error(e);
            },
        }
        proof {
            if compiler.scope_depth != Depth::Global && clashes(
                before,
                name,
                compiler.scope_depth,
            ) {
                assert(before.len() > 0);
            }
            if compiler.locals@.len() == before.len() + 1 {
                assert(variables(compiler.locals@) =~= variables(before).push(
                    Variable { name, line, depth: Depth::Uninitialised },
                ));
            }
            assert(follows(program::declare(read), self, scanner, compiler));
        }

        if Depth::Global.below(compiler.scope_depth) {
            None
        } else {
            let name = self.previous.clone();
            let ghost kept_constants = self.current_chunk.constants@;
            let index = self.identifier_constant(name);
            proof {
                assert(self.current_chunk.constants@.drop_last() == kept_constants);
            }
            Some(index)
        }
    }

    /// Compiles a parenthesised expression.
    #[verifier::spinoff_prover]
    fn grouping<F: Fn(String) -> u64>(
        &mut self,
        scanner: &mut Scanner,
        compiler: &mut Compiler,
        to_number: &F,
        Ghost(open): Ghost<Set<int>>,
    )
        requires
            steady(old(self), old(scanner), old(compiler), open),
            reads_all(to_number),
            floored(old(self), old(compiler), 0),
            numbered(old(self), to_number),
        ensures
            steady(final(self), final(scanner), final(compiler), open),
            advanced(
                old(self),
                old(scanner),
                old(compiler),
                final(self),
                final(scanner),
                final(compiler),
            ),
            final(compiler).locals@ == old(compiler).locals@,
            lifts(old(self), final(self), 1),
            follows(
                program::prefix(
                    old(scanner).source@,
                    state(old(self), old(scanner), old(compiler)),
                    Handler::Grouping,
                    false,
                ),
                final(self),
                final(scanner),
                final(compiler),
            ),
            numbered(final(self), to_number),
        decreases remaining(old(self), old(scanner)), 2int,
    {
        reveal(program::prefix);
        expression(self, scanner, compiler, to_number, Ghost(open));
        expect(self, scanner, TokenType::RightParen, "Expect ')' after expression.");
    }
}

} // verus!
