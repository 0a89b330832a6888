//! Statements and declarations: the part of the compiler above expressions.
use crate::chunk::OpCode;
use crate::compiler::{
    advance, advanced, Compiler, Depth, emitted, expect, extends, follows, keeps_typing, kept,
    lemma_pool_push, lemma_rest, lemma_typed_pops, lemma_variables_kept, lifts, Local, match_token,
    numbered, Parser, popped, Precedence, reads_all, remaining, state, steady, synchronise,
    variables,
};
use crate::layout::{lemma_reaches_extends, lemma_sound_reaches_end, reaches, Typing};
use crate::program;
use crate::program::{repeated, Variable};
use crate::scanner::{Scanner, TokenType};
use vstd::prelude::*;

verus! {

/// Leaves a scope and keeps the invariant: the `Pop`s that take the locals
/// of the scope off the stack are whole instructions, and the stack holds
/// those locals.
pub(crate) fn leave_scope(parser: &mut Parser, compiler: &mut Compiler, Ghost(open): Ghost<Set<int>>)
    requires
        old(parser).inv(open),
        old(compiler).wf(),
        old(compiler).level() >= 1,
        !old(parser).had_error ==> old(parser).typing@.here >= old(compiler).locals@.len(),
    ensures
        final(parser).inv(open),
        final(parser).same_but_code(old(parser)),
        extends(&old(parser).current_chunk, &final(parser).current_chunk),
        final(compiler).wf(),
        final(compiler).level() == old(compiler).level() - 1,
        final(compiler).scope_depth == old(compiler).scope_depth.shallower(1),
        final(compiler).locals@ == old(compiler).locals@.take(
            kept(old(compiler).locals@, final(compiler).scope_depth) as int,
        ),
        !final(parser).had_error ==> final(parser).typing@.here == old(parser).typing@.here - (
        old(compiler).locals@.len() - final(compiler).locals@.len()),
        !final(parser).had_error ==> keeps_typing(
            old(parser).typing@,
            final(parser).typing@,
            old(parser).current_chunk.code@.len() as int,
        ),
        final(parser).current_chunk.constants@ == old(parser).current_chunk.constants@,
        final(parser).typing@.pool == old(parser).typing@.pool,
        forall|sc: &Scanner|
            #![trigger state(final(parser), sc, final(compiler))]
            state(final(parser), sc, final(compiler)) == program::end_scope(
                state(old(parser), sc, old(compiler)),
            ),
{
    compiler.end_scope(parser);
    let ghost gone = (old(compiler).locals@.len() - compiler.locals@.len()) as nat;
    proof {
        lemma_variables_kept(old(compiler).locals@, compiler.scope_depth);
    }
    parser.typing = Ghost(popped(parser.typing@, gone));
    proof {
        assert(repeated(OpCode::Pop.to_byte(), gone) =~= Seq::new(
            gone,
            |i: int| OpCode::Pop.to_byte(),
        ));
        lemma_popped_pool(old(parser).typing@, gone);
        if !parser.had_error {
            lemma_typed_pops(old(parser).current_chunk.code@, gone, old(parser).typing@, open);
        }
    }
}

/// `Pop`s change nothing of the pool.
pub proof fn lemma_popped_pool(h: Typing, n: nat)
    ensures
        popped(h, n).pool == h.pool,
        popped(h, n).texts == h.texts,
        popped(h, n).marks == h.marks,
    decreases n,
{
    if n > 0 {
        lemma_popped_pool(h, (n - 1) as nat);
    }
}


/// How many of the locals have their value on the stack: all of them, or
/// all but the last while its initializer is being compiled.
pub open spec fn ripe(locals: Seq<Local>) -> int {
    if locals.len() > 0 && locals.last().depth == Depth::Uninitialised {
        locals.len() - 1
    } else {
        locals.len() as int
    }
}

/// Unless an error was found, the stack holds at least the values of the
/// locals and `above` values more.
pub open spec fn floored(parser: &Parser, compiler: &Compiler, above: int) -> bool {
    !parser.had_error ==> parser.typing@.here >= ripe(compiler.locals@) + above
}

/// At the boundary of a statement: unless an error was found, the stack
/// holds exactly the locals, and the locals are tidy.
pub open spec fn settled(parser: &Parser, compiler: &Compiler) -> bool {
    !parser.had_error ==> parser.typing@.here == compiler.locals@.len() && compiler.tidy()
}

/// The later locals are the earlier ones and, behind them, locals of the
/// current scope.
pub open spec fn grown(c0: &Compiler, c1: &Compiler) -> bool {
    &&& c0.locals@.len() <= c1.locals@.len()
    &&& c1.locals@.take(c0.locals@.len() as int) == c0.locals@
    &&& forall|i: int|
        c0.locals@.len() <= i < c1.locals@.len() ==> (#[trigger] c1.locals@[i]).depth
            == c1.scope_depth
}

/// Outside of every block there are no locals.
pub proof fn lemma_no_locals_outside(compiler: &Compiler)
    requires
        compiler.tidy(),
        compiler.scope_depth == Depth::Global,
    ensures
        compiler.locals@.len() == 0,
{
    if compiler.locals@.len() > 0 {
        assert(compiler.locals@[0].depth.rank() >= 2);
    }
}

/// When a scope ends, the locals that go are exactly those that were
/// declared in it.
pub proof fn lemma_kept_exact(locals: Seq<Local>, n: int, depth: Depth)
    requires
        0 <= n <= locals.len(),
        forall|i: int| n <= i < locals.len() ==> (#[trigger] locals[i]).depth.rank() > depth.rank(),
        forall|i: int| 0 <= i < n ==> (#[trigger] locals[i]).depth.rank() <= depth.rank(),
    ensures
        kept(locals, depth) == n,
    decreases locals.len() - n,
{
    if locals.len() > n {
        assert(locals.last().depth.rank() > depth.rank());
        assert forall|i: int| n <= i < locals.drop_last().len() implies (
        #[trigger] locals.drop_last()[i]).depth.rank() > depth.rank() by {
            assert(locals.drop_last()[i] == locals[i]);
        }
        assert forall|i: int| 0 <= i < n implies (#[trigger] locals.drop_last()[i]).depth.rank()
            <= depth.rank() by {
            assert(locals.drop_last()[i] == locals[i]);
        }
        lemma_kept_exact(locals.drop_last(), n, depth);
    } else if n > 0 {
        assert(locals.last() == locals[n - 1]);
    }
}




/// Offset `at` is the start of an instruction in front of which the stack
/// has height `height`: a place that a `Loop` can go back to.
pub open spec fn anchored(parser: &Parser, at: int, height: int) -> bool {
    !parser.had_error ==> 0 <= at <= parser.current_chunk.code@.len() && reaches(
        parser.current_chunk.code@,
        0,
        at,
    ) && parser.typing@.of(at) == height
}

/// Code that is emitted later moves no anchor.
pub proof fn lemma_anchored(p0: &Parser, p1: &Parser, at: int, height: int)
    requires
        anchored(p0, at, height),
        p0.had_error ==> p1.had_error,
        extends(&p0.current_chunk, &p1.current_chunk),
        !p1.had_error ==> keeps_typing(
            p0.typing@,
            p1.typing@,
            p0.current_chunk.code@.len() as int,
        ),
    ensures
        anchored(p1, at, height),
{
    if !p1.had_error {
        lemma_reaches_extends(p0.current_chunk.code@, p1.current_chunk.code@, 0, at);
        assert(p1.typing@.of(at) == p0.typing@.of(at));
    }
}

/// The end of code that is in shape is an anchor at the height there.
pub proof fn lemma_anchor_here(parser: &Parser, open: Set<int>)
    requires
        parser.inv(open),
    ensures
        anchored(parser, parser.current_chunk.code@.len() as int, parser.typing@.here),
{
    if !parser.had_error {
        lemma_sound_reaches_end(parser.current_chunk.code@, 0, open);
    }
}

/// Locals that grow in two steps have grown.
pub proof fn lemma_grown_twice(c0: &Compiler, c1: &Compiler, c2: &Compiler)
    requires
        grown(c0, c1),
        grown(c1, c2),
        c1.scope_depth == c2.scope_depth,
    ensures
        grown(c0, c2),
{
    let n0 = c0.locals@.len() as int;
    let n1 = c1.locals@.len() as int;
    assert(c2.locals@.take(n0) =~= c2.locals@.take(n1).take(n0));
    assert forall|i: int| n0 <= i < c2.locals@.len() implies (#[trigger] c2.locals@[i]).depth
        == c2.scope_depth by {
        if i < n1 {
            assert(c2.locals@.take(n1)[i] == c2.locals@[i]);
            assert(c1.locals@[i].depth == c1.scope_depth);
        }
    }
}

/// Compiles an expression.
#[verifier::spinoff_prover]
pub(crate) fn expression<F: Fn(String) -> u64>(
    parser: &mut Parser,
    scanner: &mut Scanner,
    compiler: &mut Compiler,
    to_number: &F,
    Ghost(open): Ghost<Set<int>>,
)
    requires
        steady(old(parser), old(scanner), old(compiler), open),
        reads_all(to_number),
        floored(old(parser), old(compiler), 0),
        numbered(old(parser), to_number),
    ensures
        steady(final(parser), final(scanner), final(compiler), open),
        advanced(
            old(parser),
            old(scanner),
            old(compiler),
            final(parser),
            final(scanner),
            final(compiler),
        ),
        final(compiler).locals@ == old(compiler).locals@,
        old(parser).current.token_type != TokenType::EOF ==> remaining(
            final(parser),
            final(scanner),
        ) < remaining(old(parser), old(scanner)),
        lifts(old(parser), final(parser), 1),
        follows(
            program::expression(
                old(scanner).source@,
                state(old(parser), old(scanner), old(compiler)),
            ),
            final(parser),
            final(scanner),
            final(compiler),
        ),
        numbered(final(parser), to_number),
    decreases remaining(old(parser), old(scanner)), 1int,
{
    reveal(program::expression);
    parser.parse_precedence(scanner, compiler, Precedence::Assignment, to_number, Ghost(open));
}

/// Compiles the declarations of a block up to its closing brace.
#[verifier::spinoff_prover]
fn block<F: Fn(String) -> u64>(
    parser: &mut Parser,
    scanner: &mut Scanner,
    compiler: &mut Compiler,
    to_number: &F,
    Ghost(open): Ghost<Set<int>>,
)
    requires
        steady(old(parser), old(scanner), old(compiler), open),
        reads_all(to_number),
        numbered(old(parser), to_number),
        settled(old(parser), old(compiler)),
    ensures
        steady(final(parser), final(scanner), final(compiler), open),
        advanced(
            old(parser),
            old(scanner),
            old(compiler),
            final(parser),
            final(scanner),
            final(compiler),
        ),
        settled(final(parser), final(compiler)),
        !final(parser).had_error ==> grown(old(compiler), final(compiler)),
        follows(
            program::block(old(scanner).source@, state(old(parser), old(scanner), old(compiler))),
            final(parser),
            final(scanner),
            final(compiler),
        ),
        numbered(final(parser), to_number),
    decreases remaining(old(parser), old(scanner)), 7int,
{
    reveal(program::block);
    let ghost source = scanner.source@;
    let ghost whole = program::block(source, state(parser, scanner, compiler));
    proof {
        assert(compiler.locals@.take(compiler.locals@.len() as int) =~= compiler.locals@);
        lemma_rest(parser, scanner, compiler);
    }
    while !parser.check(TokenType::RightBrace) && !parser.check(TokenType::EOF)
        invariant
            steady(parser, scanner, compiler, open),
            advanced(old(parser), old(scanner), old(compiler), parser, scanner, compiler),
            settled(parser, compiler),
            !parser.had_error ==> grown(old(compiler), compiler),
            reads_all(to_number),
            numbered(parser, to_number),
            source == scanner.source@,
            whole == program::block(source, state(parser, scanner, compiler)),
        decreases remaining(parser, scanner),
    {
        let ghost before = *compiler;
        reveal(program::block);
        proof {
            lemma_rest(parser, scanner, compiler);
        }
        declaration(parser, scanner, compiler, to_number, Ghost(open));
        proof {
            lemma_rest(parser, scanner, compiler);
            if !parser.had_error {
                lemma_grown_twice(old(compiler), &before, compiler);
            }
        }
    }

    proof {
        lemma_rest(parser, scanner, compiler);
    }
    expect(parser, scanner, TokenType::RightBrace, "Expect '}' after block.");
    proof {
        lemma_rest(parser, scanner, compiler);
    }
}


/// Compiles a declaration: of a variable, or a statement. After an error,
/// tokens are skipped up to the next likely start of a statement.
#[verifier::spinoff_prover]
pub(crate) fn declaration<F: Fn(String) -> u64>(
    parser: &mut Parser,
    scanner: &mut Scanner,
    compiler: &mut Compiler,
    to_number: &F,
    Ghost(open): Ghost<Set<int>>,
)
    requires
        steady(old(parser), old(scanner), old(compiler), open),
        settled(old(parser), old(compiler)),
        reads_all(to_number),
        numbered(old(parser), to_number),
    ensures
        steady(final(parser), final(scanner), final(compiler), open),
        advanced(
            old(parser),
            old(scanner),
            old(compiler),
            final(parser),
            final(scanner),
            final(compiler),
        ),
        old(parser).current.token_type != TokenType::EOF ==> remaining(
            final(parser),
            final(scanner),
        ) < remaining(old(parser), old(scanner)),
        settled(final(parser), final(compiler)),
        !final(parser).had_error ==> grown(old(compiler), final(compiler)),
        follows(
            program::declaration(
                old(scanner).source@,
                state(old(parser), old(scanner), old(compiler)),
            ),
            final(parser),
            final(scanner),
            final(compiler),
        ),
        numbered(final(parser), to_number),
    decreases remaining(old(parser), old(scanner)), 6int,
{
    reveal(program::declaration);
    proof {
        lemma_rest(parser, scanner, compiler);
    }
    if match_token(parser, scanner, TokenType::Var) {
        proof {
            lemma_rest(parser, scanner, compiler);
        }
        var_declaration(parser, scanner, compiler, to_number, Ghost(open));
        proof {
            lemma_rest(parser, scanner, compiler);
        }
    } else {
        statement(parser, scanner, compiler, to_number, Ghost(open));
        proof {
            lemma_rest(parser, scanner, compiler);
        }
        proof {
            assert(compiler.locals@.take(compiler.locals@.len() as int) =~= compiler.locals@);
        }
    }

    if parser.panic_mode {
        synchronise(parser, scanner);
    }
}

/// Marking the last local initialised changes its depth and nothing else.
pub proof fn lemma_variables_marked(before: Seq<Local>, after: Seq<Local>, depth: Depth)
    requires
        before.len() > 0,
        after.len() == before.len(),
        after.drop_last() == before.drop_last(),
        after.last().name == before.last().name,
        after.last().depth == depth,
    ensures
        variables(after) == variables(before).drop_last().push(
            Variable { depth, ..variables(before).last() },
        ),
{
    let marked = variables(before).drop_last().push(
        Variable { depth, ..variables(before).last() },
    );
    assert forall|i: int| 0 <= i < after.len() implies variables(after)[i] == marked[i] by {
        if i < after.len() - 1 {
            assert(after[i] == after.drop_last()[i]);
            assert(before[i] == before.drop_last()[i]);
        }
    }
    assert(variables(after) =~= marked);
}

/// Compiles the declaration of a variable behind its `var`: the name, the
/// initializer or `nil` in its place, and the definition. The value of a
/// local stays on the stack, where it is the local.
#[verifier::spinoff_prover]
fn var_declaration<F: Fn(String) -> u64>(
    parser: &mut Parser,
    scanner: &mut Scanner,
    compiler: &mut Compiler,
    to_number: &F,
    Ghost(open): Ghost<Set<int>>,
)
    requires
        steady(old(parser), old(scanner), old(compiler), open),
        settled(old(parser), old(compiler)),
        reads_all(to_number),
        numbered(old(parser), to_number),
    ensures
        steady(final(parser), final(scanner), final(compiler), open),
        advanced(
            old(parser),
            old(scanner),
            old(compiler),
            final(parser),
            final(scanner),
            final(compiler),
        ),
        settled(final(parser), final(compiler)),
        !final(parser).had_error ==> grown(old(compiler), final(compiler)),
        follows(
            program::var_declaration(
                old(scanner).source@,
                state(old(parser), old(scanner), old(compiler)),
            ),
            final(parser),
            final(scanner),
            final(compiler),
        ),
        numbered(final(parser), to_number),
    decreases remaining(old(parser), old(scanner)), 3int,
{
    reveal(program::var_declaration);
    let ghost source = scanner.source@;
    let ghost entry = state(parser, scanner, compiler);
    proof {
        lemma_rest(parser, scanner, compiler);
    }
    let global = parser.parse_variable(scanner, compiler, "Expect variable name.", Ghost(open));
    let ghost declared = compiler.locals@;
    let ghost named = *parser;
    proof {
        lemma_rest(parser, scanner, compiler);
        if !parser.had_error && parser.typing@.pool != old(parser).typing@.pool {
            lemma_pool_push(
                old(parser).current_chunk.constants@,
                old(parser).typing@.pool,
                parser.current_chunk.constants@.last(),
                parser.typing@.pool.last(),
                to_number,
            );
            assert(parser.current_chunk.constants@ =~= old(parser).current_chunk.constants@.push(
                parser.current_chunk.constants@.last(),
            ));
            assert(parser.typing@.pool =~= old(parser).typing@.pool.push(
                parser.typing@.pool.last(),
            ));
        }
    }

    if match_token(parser, scanner, TokenType::Equal) {
        proof {
            lemma_rest(parser, scanner, compiler);
        }
        expression(parser, scanner, compiler, to_number, Ghost(open));
        proof {
            lemma_rest(parser, scanner, compiler);
        }
    } else {
        parser.emit_op(OpCode::Nil, Ghost(open));
    }
    expect(parser, scanner, TokenType::Semicolon, "Expect ';' variable declaration.");
    proof {
        lemma_rest(parser, scanner, compiler);
    }

    proof {
        if !parser.had_error && global is Some {
            assert(parser.current_chunk.constants@[global->0 as int]
                == named.current_chunk.constants@[global->0 as int]);
        }
    }
    let ghost before_define = state(parser, scanner, compiler);
    let ghost at_define = *compiler;
    let ghost index = program::next_index(
        program::named(source, entry, "Expect variable name."@),
    );
    proof {
        assert(program::is_global(compiler.scope_depth) == (global is Some));
        assert(global is Some ==> global->0 == index);
    }
    parser.define_variable(compiler, global, Ghost(open));
    proof {
        lemma_rest(parser, scanner, compiler);
        assert(state(parser, scanner, compiler) == program::defined(before_define, index)) by {
            if global is None {
                lemma_variables_marked(at_define.locals@, compiler.locals@, compiler.scope_depth);
            }
        }
        if !parser.had_error {
            let before = old(compiler).locals@;
            let after = compiler.locals@;
            if global is None {
                assert(variables(after) =~= before_define.locals.drop_last().push(
                    Variable { depth: compiler.scope_depth, ..before_define.locals.last() },
                ));
                assert(after.drop_last() == declared.drop_last());
                assert(after.take(before.len() as int) =~= before);
                assert forall|i: int| 0 <= i < after.len() implies 2 <= (#[trigger] after[i]).depth.rank()
                    <= compiler.scope_depth.rank() by {
                    if i < before.len() {
                        assert(after[i] == after.drop_last()[i]);
                        assert(before[i] == declared.drop_last()[i]);
                    }
                }
                assert forall|i: int, j: int| 0 <= i < j < after.len() implies (
                #[trigger] after[i]).depth.rank() <= (#[trigger] after[j]).depth.rank() by {
                    assert(after[i] == after.drop_last()[i]);
                    assert(before[i] == declared.drop_last()[i]);
                    if j < before.len() {
                        assert(after[j] == after.drop_last()[j]);
                        assert(before[j] == declared.drop_last()[j]);
                    }
                }
            } else {
                assert(after.take(before.len() as int) =~= before);
            }
        }
    }
}

/// Compiles a block behind its `{`: a scope of its own with the
/// declarations of the block.
#[verifier::spinoff_prover]
fn scoped_block<F: Fn(String) -> u64>(
    parser: &mut Parser,
    scanner: &mut Scanner,
    compiler: &mut Compiler,
    to_number: &F,
    Ghost(open): Ghost<Set<int>>,
)
    requires
        steady(old(parser), old(scanner), old(compiler), open),
        reads_all(to_number),
        numbered(old(parser), to_number),
        settled(old(parser), old(compiler)),
        old(compiler).level() + remaining(old(parser), old(scanner)) <= old(scanner).source@.len(),
    ensures
        steady(final(parser), final(scanner), final(compiler), open),
        advanced(
            old(parser),
            old(scanner),
            old(compiler),
            final(parser),
            final(scanner),
            final(compiler),
        ),
        settled(final(parser), final(compiler)),
        !final(parser).had_error ==> final(compiler).locals@ == old(compiler).locals@,
        follows(
            program::scoped_block(
                old(scanner).source@,
                state(old(parser), old(scanner), old(compiler)),
            ),
            final(parser),
            final(scanner),
            final(compiler),
        ),
        numbered(final(parser), to_number),
    decreases remaining(old(parser), old(scanner)), 8int,
{
    reveal(program::scoped_block);
    compiler.begin_scope();
    let ghost outer = *compiler;
    proof {
        lemma_rest(parser, scanner, compiler);
    }
    block(parser, scanner, compiler, to_number, Ghost(open));
    let ghost inner = *compiler;
    proof {
        lemma_rest(parser, scanner, compiler);
    }
    leave_scope(parser, compiler, Ghost(open));
    proof {
        if !parser.had_error {
            lemma_scope_ends(old(compiler), &outer, &inner, compiler);
        }
        lemma_rest(parser, scanner, compiler);
    }
}

/// Compiles a statement. A statement leaves the locals as it finds them:
/// what a block declares ends with the block.
#[verifier::spinoff_prover]
fn statement<F: Fn(String) -> u64>(
    parser: &mut Parser,
    scanner: &mut Scanner,
    compiler: &mut Compiler,
    to_number: &F,
    Ghost(open): Ghost<Set<int>>,
)
    requires
        steady(old(parser), old(scanner), old(compiler), open),
        reads_all(to_number),
        numbered(old(parser), to_number),
        settled(old(parser), old(compiler)),
    ensures
        steady(final(parser), final(scanner), final(compiler), open),
        advanced(
            old(parser),
            old(scanner),
            old(compiler),
            final(parser),
            final(scanner),
            final(compiler),
        ),
        old(parser).current.token_type != TokenType::EOF ==> remaining(
            final(parser),
            final(scanner),
        ) < remaining(old(parser), old(scanner)),
        settled(final(parser), final(compiler)),
        !final(parser).had_error ==> final(compiler).locals@ == old(compiler).locals@,
        follows(
            program::statement(old(scanner).source@, state(old(parser), old(scanner), old(compiler))),
            final(parser),
            final(scanner),
            final(compiler),
        ),
        numbered(final(parser), to_number),
    decreases remaining(old(parser), old(scanner)), 4int,
{
    reveal(program::statement);
    proof {
        lemma_rest(parser, scanner, compiler);
    }
    let kind = parser.current.token_type;
    match kind {
        TokenType::Print
        | TokenType::If
        | TokenType::While
        | TokenType::For
        | TokenType::LeftBrace => {
            advance(parser, scanner);
            proof {
                lemma_rest(parser, scanner, compiler);
            }
            match kind {
                TokenType::Print => {
                    print_statement(parser, scanner, compiler, to_number, Ghost(open))
                },
                TokenType::If => if_statement(parser, scanner, compiler, to_number, Ghost(open)),
                TokenType::While => {
                    while_statement(parser, scanner, compiler, to_number, Ghost(open))
                },
                TokenType::For => for_statement(parser, scanner, compiler, to_number, Ghost(open)),
                _ => scoped_block(parser, scanner, compiler, to_number, Ghost(open)),
            }
        },
        _ => expression_statement(parser, scanner, compiler, to_number, Ghost(open)),
    }
    proof {
        lemma_rest(parser, scanner, compiler);
    }
}

/// When a scope ends that was entered with tidy locals, the locals are
/// again those that were there when it was entered.
pub proof fn lemma_scope_ends(before: &Compiler, outer: &Compiler, inner: &Compiler, after: &Compiler)
    requires
        before.tidy(),
        before.wf(),
        before.level() <= i32::MAX,
        outer.locals@ == before.locals@,
        outer.scope_depth == before.scope_depth.deeper(1),
        inner.scope_depth == outer.scope_depth,
        grown(outer, inner),
        after.scope_depth == before.scope_depth,
        after.locals@ == inner.locals@.take(kept(inner.locals@, after.scope_depth) as int),
    ensures
        after.locals@ == before.locals@,
        inner.locals@.len() - after.locals@.len() == inner.locals@.len() - before.locals@.len(),
{
    let n = before.locals@.len() as int;
    assert forall|i: int| 0 <= i < n implies (#[trigger] inner.locals@[i]).depth.rank()
        <= after.scope_depth.rank() by {
        assert(inner.locals@.take(n)[i] == inner.locals@[i]);
        assert(before.locals@[i].depth.rank() <= before.scope_depth.rank());
    }
    assert(inner.scope_depth.rank() > before.scope_depth.rank());
    lemma_kept_exact(inner.locals@, n, after.scope_depth);
}

/// Compiles a `print` statement behind its keyword.
#[verifier::spinoff_prover]
fn print_statement<F: Fn(String) -> u64>(
    parser: &mut Parser,
    scanner: &mut Scanner,
    compiler: &mut Compiler,
    to_number: &F,
    Ghost(open): Ghost<Set<int>>,
)
    requires
        steady(old(parser), old(scanner), old(compiler), open),
        reads_all(to_number),
        floored(old(parser), old(compiler), 0),
        numbered(old(parser), to_number),
    ensures
        steady(final(parser), final(scanner), final(compiler), open),
        advanced(
            old(parser),
            old(scanner),
            old(compiler),
            final(parser),
            final(scanner),
            final(compiler),
        ),
        final(compiler).locals@ == old(compiler).locals@,
        lifts(old(parser), final(parser), 0),
        follows(
            program::expression_statement(
                old(scanner).source@,
                state(old(parser), old(scanner), old(compiler)),
                OpCode::Print,
            ),
            final(parser),
            final(scanner),
            final(compiler),
        ),
        numbered(final(parser), to_number),
    decreases remaining(old(parser), old(scanner)), 3int,
{
    reveal(program::expression_statement);
    proof {
        lemma_rest(parser, scanner, compiler);
    }
    expression(parser, scanner, compiler, to_number, Ghost(open));
    proof {
        lemma_rest(parser, scanner, compiler);
    }
    expect(parser, scanner, TokenType::Semicolon, "Expect ';' after value.");
    proof {
        lemma_rest(parser, scanner, compiler);
    }
    parser.emit_op(OpCode::Print, Ghost(open));
}

/// Compiles an expression used as a statement: its value is dropped.
#[verifier::spinoff_prover]
fn expression_statement<F: Fn(String) -> u64>(
    parser: &mut Parser,
    scanner: &mut Scanner,
    compiler: &mut Compiler,
    to_number: &F,
    Ghost(open): Ghost<Set<int>>,
)
    requires
        steady(old(parser), old(scanner), old(compiler), open),
        reads_all(to_number),
        floored(old(parser), old(compiler), 0),
        numbered(old(parser), to_number),
    ensures
        steady(final(parser), final(scanner), final(compiler), open),
        advanced(
            old(parser),
            old(scanner),
            old(compiler),
            final(parser),
            final(scanner),
            final(compiler),
        ),
        final(compiler).locals@ == old(compiler).locals@,
        old(parser).current.token_type != TokenType::EOF ==> remaining(
            final(parser),
            final(scanner),
        ) < remaining(old(parser), old(scanner)),
        lifts(old(parser), final(parser), 0),
        follows(
            program::expression_statement(
                old(scanner).source@,
                state(old(parser), old(scanner), old(compiler)),
                OpCode::Pop,
            ),
            final(parser),
            final(scanner),
            final(compiler),
        ),
        numbered(final(parser), to_number),
    decreases remaining(old(parser), old(scanner)), 3int,
{
    reveal(program::expression_statement);
    proof {
        lemma_rest(parser, scanner, compiler);
    }
    expression(parser, scanner, compiler, to_number, Ghost(open));
    proof {
        lemma_rest(parser, scanner, compiler);
    }
    expect(parser, scanner, TokenType::Semicolon, "Expect ';' after expression.");
    proof {
        lemma_rest(parser, scanner, compiler);
    }
    parser.emit_op(OpCode::Pop, Ghost(open));
}

/// Compiles a condition in parentheses, the jump that skips what depends on
/// it, and the `Pop` that drops the condition where it holds. Returns where
/// the jump waits to be patched.
#[verifier::spinoff_prover]
fn condition<F: Fn(String) -> u64>(
    parser: &mut Parser,
    scanner: &mut Scanner,
    compiler: &mut Compiler,
    message: &str,
    to_number: &F,
    Ghost(open): Ghost<Set<int>>,
) -> (jump: usize)
    requires
        steady(old(parser), old(scanner), old(compiler), open),
        reads_all(to_number),
        numbered(old(parser), to_number),
        floored(old(parser), old(compiler), 0),
    ensures
        steady(final(parser), final(scanner), final(compiler), open.insert(jump - 1)),
        advanced(
            old(parser),
            old(scanner),
            old(compiler),
            final(parser),
            final(scanner),
            final(compiler),
        ),
        final(compiler).locals@ == old(compiler).locals@,
        jump >= 1,
        !open.contains(jump - 1),
        old(parser).current_chunk.code@.len() <= jump - 1,
        jump + 3 == final(parser).current_chunk.code@.len(),
        !final(parser).had_error ==> final(parser).typing@.here == old(parser).typing@.here
            && final(parser).typing@.pinned && final(parser).typing@.of(jump - 1) == old(
            parser,
        ).typing@.here + 1,
        follows(
            program::condition(
                old(scanner).source@,
                state(old(parser), old(scanner), old(compiler)),
                message@,
            ),
            final(parser),
            final(scanner),
            final(compiler),
        ),
        numbered(final(parser), to_number),
    decreases remaining(old(parser), old(scanner)), 4int,
{
    reveal(program::condition);
    proof {
        lemma_rest(parser, scanner, compiler);
    }
    expect(parser, scanner, TokenType::LeftParen, message);
    proof {
        lemma_rest(parser, scanner, compiler);
    }
    expression(parser, scanner, compiler, to_number, Ghost(open));
    proof {
        lemma_rest(parser, scanner, compiler);
    }
    expect(parser, scanner, TokenType::RightParen, "Expect ')' after condition.");
    proof {
        lemma_rest(parser, scanner, compiler);
    }

    let jump = parser.start_jump(OpCode::JumpIfFalse, Ghost(open));
    parser.emit_op(OpCode::Pop, Ghost(open.insert(jump - 1)));
    jump
}

/// Compiles the `else` branch of an `if` statement, if it has one.
#[verifier::spinoff_prover]
fn else_branch<F: Fn(String) -> u64>(
    parser: &mut Parser,
    scanner: &mut Scanner,
    compiler: &mut Compiler,
    to_number: &F,
    Ghost(open): Ghost<Set<int>>,
)
    requires
        steady(old(parser), old(scanner), old(compiler), open),
        reads_all(to_number),
        numbered(old(parser), to_number),
        settled(old(parser), old(compiler)),
    ensures
        steady(final(parser), final(scanner), final(compiler), open),
        advanced(
            old(parser),
            old(scanner),
            old(compiler),
            final(parser),
            final(scanner),
            final(compiler),
        ),
        settled(final(parser), final(compiler)),
        !final(parser).had_error ==> final(compiler).locals@ == old(compiler).locals@,
        follows(
            program::otherwise(old(scanner).source@, state(old(parser), old(scanner), old(compiler))),
            final(parser),
            final(scanner),
            final(compiler),
        ),
        numbered(final(parser), to_number),
    decreases remaining(old(parser), old(scanner)), 5int,
{
    reveal(program::otherwise);
    proof {
        lemma_rest(parser, scanner, compiler);
    }
    if match_token(parser, scanner, TokenType::Else) {
        proof {
            lemma_rest(parser, scanner, compiler);
        }
        statement(parser, scanner, compiler, to_number, Ghost(open));
        proof {
            lemma_rest(parser, scanner, compiler);
        }
    }
}

/// Compiles the part of an `if` statement that comes before its `else`
/// branch: the condition, the statement that depends on it, the jump over
/// the `else` branch, and the `Pop` with which that branch begins. The
/// condition stays on the stack across its jump, so both branches begin by
/// dropping it. Returns where the jump over the `else` branch waits to be
/// patched.
#[verifier::spinoff_prover]
fn consequent<F: Fn(String) -> u64>(
    parser: &mut Parser,
    scanner: &mut Scanner,
    compiler: &mut Compiler,
    to_number: &F,
    Ghost(open): Ghost<Set<int>>,
) -> (jump: usize)
    requires
        steady(old(parser), old(scanner), old(compiler), open),
        reads_all(to_number),
        numbered(old(parser), to_number),
        settled(old(parser), old(compiler)),
    ensures
        steady(final(parser), final(scanner), final(compiler), open.insert(jump - 1)),
        advanced(
            old(parser),
            old(scanner),
            old(compiler),
            final(parser),
            final(scanner),
            final(compiler),
        ),
        settled(final(parser), final(compiler)),
        !final(parser).had_error ==> final(compiler).locals@ == old(compiler).locals@,
        jump >= 1,
        !open.contains(jump - 1),
        old(parser).current_chunk.code@.len() <= jump - 1,
        jump + 3 == final(parser).current_chunk.code@.len(),
        !final(parser).had_error ==> final(parser).typing@.here == old(parser).typing@.here
            && final(parser).typing@.of(jump - 1) == old(parser).typing@.here,
        follows(
            program::consequent(
                old(scanner).source@,
                state(old(parser), old(scanner), old(compiler)),
            ),
            final(parser),
            final(scanner),
            final(compiler),
        ),
        numbered(final(parser), to_number),
    decreases remaining(old(parser), old(scanner)), 5int,
{
    reveal(program::consequent);
    let ghost base = parser.typing@.here;
    proof {
        lemma_rest(parser, scanner, compiler);
    }
    let then_jump = condition(
        parser,
        scanner,
        compiler,
        "Expect '(' after 'if'.",
        to_number,
        Ghost(open),
    );
    let ghost in_then = open.insert(then_jump - 1);
    proof {
        lemma_rest(parser, scanner, compiler);
    }
    statement(parser, scanner, compiler, to_number, Ghost(in_then));
    proof {
        lemma_rest(parser, scanner, compiler);
    }

    let else_jump = parser.start_jump(OpCode::Jump, Ghost(in_then));
    let ghost both = in_then.insert(else_jump - 1);
    assert(!parser.had_error ==> parser.typing@.of(then_jump - 1) == base + 1);
    assert(!parser.had_error ==> parser.typing@.of(else_jump - 1) == base);

    parser.finish_jump(then_jump, Ghost(both));
    let ghost in_else = open.insert(else_jump - 1);
    proof {
        assert(both.remove(then_jump - 1) =~= in_else);
    }
    assert(!parser.had_error ==> parser.typing@.of(else_jump - 1) == base);

    parser.emit_op(OpCode::Pop, Ghost(in_else));
    proof {
        lemma_rest(parser, scanner, compiler);
    }
    assert(!parser.had_error ==> parser.typing@.of(else_jump - 1) == base);
    else_jump
}

/// Compiles an `if` statement behind its keyword.
#[verifier::spinoff_prover]
fn if_statement<F: Fn(String) -> u64>(
    parser: &mut Parser,
    scanner: &mut Scanner,
    compiler: &mut Compiler,
    to_number: &F,
    Ghost(open): Ghost<Set<int>>,
)
    requires
        steady(old(parser), old(scanner), old(compiler), open),
        reads_all(to_number),
        numbered(old(parser), to_number),
        settled(old(parser), old(compiler)),
    ensures
        steady(final(parser), final(scanner), final(compiler), open),
        advanced(
            old(parser),
            old(scanner),
            old(compiler),
            final(parser),
            final(scanner),
            final(compiler),
        ),
        settled(final(parser), final(compiler)),
        !final(parser).had_error ==> final(compiler).locals@ == old(compiler).locals@,
        follows(
            program::if_statement(
                old(scanner).source@,
                state(old(parser), old(scanner), old(compiler)),
            ),
            final(parser),
            final(scanner),
            final(compiler),
        ),
        numbered(final(parser), to_number),
    decreases remaining(old(parser), old(scanner)), 6int,
{
    reveal(program::if_statement);
    let ghost base = parser.typing@.here;
    proof {
        lemma_rest(parser, scanner, compiler);
    }
    let else_jump = consequent(parser, scanner, compiler, to_number, Ghost(open));
    let ghost in_else = open.insert(else_jump - 1);
    proof {
        lemma_rest(parser, scanner, compiler);
    }
    else_branch(parser, scanner, compiler, to_number, Ghost(in_else));
    proof {
        lemma_rest(parser, scanner, compiler);
    }
    assert(!parser.had_error ==> parser.typing@.of(else_jump - 1) == base);
    parser.finish_jump(else_jump, Ghost(in_else));
    proof {
        assert(in_else.remove(else_jump - 1) =~= open);
    }
}

/// Compiles a `while` statement behind its keyword.
#[verifier::spinoff_prover]
fn while_statement<F: Fn(String) -> u64>(
    parser: &mut Parser,
    scanner: &mut Scanner,
    compiler: &mut Compiler,
    to_number: &F,
    Ghost(open): Ghost<Set<int>>,
)
    requires
        steady(old(parser), old(scanner), old(compiler), open),
        reads_all(to_number),
        numbered(old(parser), to_number),
        settled(old(parser), old(compiler)),
    ensures
        steady(final(parser), final(scanner), final(compiler), open),
        advanced(
            old(parser),
            old(scanner),
            old(compiler),
            final(parser),
            final(scanner),
            final(compiler),
        ),
        settled(final(parser), final(compiler)),
        !final(parser).had_error ==> final(compiler).locals@ == old(compiler).locals@,
        follows(
            program::while_statement(
                old(scanner).source@,
                state(old(parser), old(scanner), old(compiler)),
            ),
            final(parser),
            final(scanner),
            final(compiler),
        ),
        numbered(final(parser), to_number),
    decreases remaining(old(parser), old(scanner)), 6int,
{
    reveal(program::while_statement);
    let ghost base = parser.typing@.here;
    let loop_start = parser.current_chunk.code.len();
    proof {
        lemma_anchor_here(parser, open);
        lemma_rest(parser, scanner, compiler);
    }

    let ghost at_condition = *parser;
    let exit_jump = condition(
        parser,
        scanner,
        compiler,
        "Expect '(' after 'while'.",
        to_number,
        Ghost(open),
    );
    let ghost inner = open.insert(exit_jump - 1);
    proof {
        lemma_anchored(&at_condition, parser, loop_start as int, base);
        lemma_rest(parser, scanner, compiler);
    }

    let ghost at_body = *parser;
    statement(parser, scanner, compiler, to_number, Ghost(inner));
    proof {
        lemma_anchored(&at_body, parser, loop_start as int, base);
        lemma_rest(parser, scanner, compiler);
    }
    assert(!parser.had_error ==> parser.typing@.of(exit_jump - 1) == base + 1);

    parser.close_loop(loop_start, Ghost(inner));
    assert(!parser.had_error ==> parser.typing@.of(exit_jump - 1) == base + 1);

    parser.finish_jump(exit_jump, Ghost(inner));
    proof {
        assert(inner.remove(exit_jump - 1) =~= open);
    }
    parser.emit_op(OpCode::Pop, Ghost(open));
}


/// Compiles the initializer of a `for` statement: nothing, the declaration
/// of the loop variable, or an expression.
#[verifier::spinoff_prover]
fn for_initializer<F: Fn(String) -> u64>(
    parser: &mut Parser,
    scanner: &mut Scanner,
    compiler: &mut Compiler,
    to_number: &F,
    Ghost(open): Ghost<Set<int>>,
)
    requires
        steady(old(parser), old(scanner), old(compiler), open),
        settled(old(parser), old(compiler)),
        reads_all(to_number),
        numbered(old(parser), to_number),
    ensures
        steady(final(parser), final(scanner), final(compiler), open),
        advanced(
            old(parser),
            old(scanner),
            old(compiler),
            final(parser),
            final(scanner),
            final(compiler),
        ),
        settled(final(parser), final(compiler)),
        !final(parser).had_error ==> grown(old(compiler), final(compiler)),
        follows(
            program::for_initializer(
                old(scanner).source@,
                state(old(parser), old(scanner), old(compiler)),
            ),
            final(parser),
            final(scanner),
            final(compiler),
        ),
        numbered(final(parser), to_number),
    decreases remaining(old(parser), old(scanner)), 4int,
{
    reveal(program::for_initializer);
    proof {
        lemma_rest(parser, scanner, compiler);
    }
    proof {
        assert(compiler.locals@.take(compiler.locals@.len() as int) =~= compiler.locals@);
    }
    if match_token(parser, scanner, TokenType::Semicolon) {
        proof {
            lemma_rest(parser, scanner, compiler);
        }
        //No initializer
    } else if match_token(parser, scanner, TokenType::Var) {
        proof {
            lemma_rest(parser, scanner, compiler);
        }
        var_declaration(parser, scanner, compiler, to_number, Ghost(open));
        proof {
            lemma_rest(parser, scanner, compiler);
        }
    } else {
        expression_statement(parser, scanner, compiler, to_number, Ghost(open));
        proof {
            lemma_rest(parser, scanner, compiler);
        }
    }
}

/// Compiles the condition of a `for` statement, if it has one: the
/// expression, and the jump that leaves the loop when it is false. Returns
/// where that jump waits to be patched.
fn for_condition<F: Fn(String) -> u64>(
    parser: &mut Parser,
    scanner: &mut Scanner,
    compiler: &mut Compiler,
    to_number: &F,
    Ghost(open): Ghost<Set<int>>,
) -> (exit_jump: Option<usize>)
    requires
        steady(old(parser), old(scanner), old(compiler), open),
        reads_all(to_number),
        floored(old(parser), old(compiler), 0),
        numbered(old(parser), to_number),
    ensures
        steady(
            final(parser),
            final(scanner),
            final(compiler),
            match exit_jump {
                Some(jump) => open.insert(jump - 1),
                None => open,
            },
        ),
        advanced(
            old(parser),
            old(scanner),
            old(compiler),
            final(parser),
            final(scanner),
            final(compiler),
        ),
        final(compiler).locals@ == old(compiler).locals@,
        !final(parser).had_error ==> final(parser).typing@.here == old(parser).typing@.here,
        match exit_jump {
            Some(jump) => {
                &&& jump >= 1
                &&& !open.contains(jump - 1)
                &&& old(parser).current_chunk.code@.len() <= jump - 1
                &&& jump + 2 <= final(parser).current_chunk.code@.len()
                &&& !final(parser).had_error ==> final(parser).typing@.of(jump - 1) == old(
                    parser,
                ).typing@.here + 1
            },
            None => true,
        },
        follows(
            program::for_condition(
                old(scanner).source@,
                state(old(parser), old(scanner), old(compiler)),
            ),
            final(parser),
            final(scanner),
            final(compiler),
        ),
        numbered(final(parser), to_number),
        exit_jump is Some <==> old(parser).current.token_type != TokenType::Semicolon,
        exit_jump is Some ==> exit_jump->0 + 3 == final(parser).current_chunk.code@.len(),
    decreases remaining(old(parser), old(scanner)), 4int,
{
    reveal(program::for_condition);
    proof {
        lemma_rest(parser, scanner, compiler);
    }
    if !match_token(parser, scanner, TokenType::Semicolon) {
        proof {
            lemma_rest(parser, scanner, compiler);
        }
        expression(parser, scanner, compiler, to_number, Ghost(open));
        proof {
            lemma_rest(parser, scanner, compiler);
        }
        expect(parser, scanner, TokenType::Semicolon, "Expect ';' after loop condition.");
        proof {
            lemma_rest(parser, scanner, compiler);
        }

        //Jump out of the loop if the condition is false.
        let jump = parser.start_jump(OpCode::JumpIfFalse, Ghost(open));
        parser.emit_op(OpCode::Pop, Ghost(open.insert(jump - 1)));  //Condition
        Some(jump)
    } else {
        None
    }
}

/// Compiles the increment of a `for` statement, if it has one. The
/// increment stands before the body but runs after it: the code jumps over
/// it into the body, and the increment loops back to `loop_start`. Returns
/// where the body loops back to: the increment, or `loop_start` if there is
/// none.
#[verifier::spinoff_prover]
fn for_increment<F: Fn(String) -> u64>(
    parser: &mut Parser,
    scanner: &mut Scanner,
    compiler: &mut Compiler,
    loop_start: usize,
    to_number: &F,
    Ghost(open): Ghost<Set<int>>,
) -> (next_start: usize)
    requires
        steady(old(parser), old(scanner), old(compiler), open),
        reads_all(to_number),
        loop_start <= old(parser).current_chunk.code@.len(),
        anchored(old(parser), loop_start as int, old(parser).typing@.here),
        floored(old(parser), old(compiler), 0),
        numbered(old(parser), to_number),
    ensures
        steady(final(parser), final(scanner), final(compiler), open),
        advanced(
            old(parser),
            old(scanner),
            old(compiler),
            final(parser),
            final(scanner),
            final(compiler),
        ),
        final(compiler).locals@ == old(compiler).locals@,
        !final(parser).had_error ==> final(parser).typing@.here == old(parser).typing@.here,
        next_start <= final(parser).current_chunk.code@.len(),
        anchored(final(parser), next_start as int, old(parser).typing@.here),
        follows(
            program::for_increment(
                old(scanner).source@,
                state(old(parser), old(scanner), old(compiler)),
                loop_start as int,
            ),
            final(parser),
            final(scanner),
            final(compiler),
        ),
        numbered(final(parser), to_number),
        next_start == if old(parser).current.token_type == TokenType::RightParen {
            loop_start as int
        } else {
            old(parser).current_chunk.code@.len() as int + 3
        },
    decreases remaining(old(parser), old(scanner)), 4int,
{
    reveal(program::for_increment);
    proof {
        lemma_rest(parser, scanner, compiler);
    }
    let ghost base = parser.typing@.here;
    if !match_token(parser, scanner, TokenType::RightParen) {
        proof {
            lemma_rest(parser, scanner, compiler);
        }
        let ghost at_jump = *parser;
        let body_jump = parser.start_jump(OpCode::Jump, Ghost(open));
        let ghost in_increment = open.insert(body_jump - 1);
        proof {
            lemma_anchored(&at_jump, parser, loop_start as int, base);
        }

        let increment_start = parser.current_chunk.code.len();
        proof {
            lemma_anchor_here(parser, in_increment);
        }
        let ghost at_increment = *parser;
        expression(parser, scanner, compiler, to_number, Ghost(in_increment));
        proof {
            lemma_rest(parser, scanner, compiler);
        }
        proof {
            lemma_anchored(&at_increment, parser, loop_start as int, base);
            lemma_anchored(&at_increment, parser, increment_start as int, base);
        }
        let ghost at_pop = *parser;
        parser.emit_op(OpCode::Pop, Ghost(in_increment));
        proof {
            lemma_anchored(&at_pop, parser, loop_start as int, base);
            lemma_anchored(&at_pop, parser, increment_start as int, base);
        }
        expect(parser, scanner, TokenType::RightParen, "Expect ')' after for clauses.");
        proof {
            lemma_rest(parser, scanner, compiler);
        }

        let ghost at_loop = *parser;
        parser.close_loop(loop_start, Ghost(in_increment));
        proof {
            lemma_anchored(&at_loop, parser, increment_start as int, base);
        }
        assert(!parser.had_error ==> parser.typing@.of(body_jump - 1) == base);
        parser.finish_jump(body_jump, Ghost(in_increment));
        proof {
            assert(in_increment.remove(body_jump - 1) =~= open);
        }
        increment_start
    } else {
        loop_start
    }
}

/// Compiles the clauses of a `for` statement behind its `(`: initializer,
/// condition and increment. Returns where the jump that leaves the loop
/// waits to be patched, if the loop has a condition, and where the body
/// loops back to.
#[verifier::spinoff_prover]
fn for_clauses<F: Fn(String) -> u64>(
    parser: &mut Parser,
    scanner: &mut Scanner,
    compiler: &mut Compiler,
    to_number: &F,
    Ghost(open): Ghost<Set<int>>,
) -> (clauses: (Option<usize>, usize))
    requires
        steady(old(parser), old(scanner), old(compiler), open),
        reads_all(to_number),
        numbered(old(parser), to_number),
        settled(old(parser), old(compiler)),
    ensures
        steady(
            final(parser),
            final(scanner),
            final(compiler),
            match clauses.0 {
                Some(jump) => open.insert(jump - 1),
                None => open,
            },
        ),
        advanced(
            old(parser),
            old(scanner),
            old(compiler),
            final(parser),
            final(scanner),
            final(compiler),
        ),
        settled(final(parser), final(compiler)),
        !final(parser).had_error ==> grown(old(compiler), final(compiler)),
        clauses.1 <= final(parser).current_chunk.code@.len(),
        anchored(final(parser), clauses.1 as int, final(parser).typing@.here),
        match clauses.0 {
            Some(jump) => {
                &&& jump >= 1
                &&& !open.contains(jump - 1)
                &&& old(parser).current_chunk.code@.len() <= jump - 1
                &&& !final(parser).had_error ==> final(parser).typing@.of(jump - 1)
                    == final(parser).typing@.here + 1
            },
            None => true,
        },
        ({
            let c = program::for_clauses(
                old(scanner).source@,
                state(old(parser), old(scanner), old(compiler)),
            );
            &&& state(final(parser), final(scanner), final(compiler)) == c.state
            &&& clauses.1 == c.start
            &&& match clauses.0 {
                Some(jump) => c.exit == Some(jump - 1),
                None => c.exit is None,
            }
        }),
        numbered(final(parser), to_number),
    decreases remaining(old(parser), old(scanner)), 5int,
{
    reveal(program::for_clauses);
    let ghost source = scanner.source@;
    let ghost entry = state(parser, scanner, compiler);
    proof {
        lemma_rest(parser, scanner, compiler);
    }
    for_initializer(parser, scanner, compiler, to_number, Ghost(open));
    let ghost base = parser.typing@.here;
    let ghost begun = state(parser, scanner, compiler);
    proof {
        lemma_rest(parser, scanner, compiler);
        assert(begun == program::for_initializer(source, entry));
    }

    let loop_start = parser.current_chunk.code.len();
    proof {
        lemma_anchor_here(parser, open);
    }

    let ghost at_condition = *parser;
    let exit_jump = for_condition(parser, scanner, compiler, to_number, Ghost(open));
    let ghost inner = match exit_jump {
        Some(jump) => open.insert(jump - 1),
        None => open,
    };
    let ghost tested = state(parser, scanner, compiler);
    proof {
        lemma_anchored(&at_condition, parser, loop_start as int, base);
        lemma_rest(parser, scanner, compiler);
        assert(tested == program::for_condition(source, begun));
    }

    let ghost at_increment = *parser;
    let loop_start = for_increment(parser, scanner, compiler, loop_start, to_number, Ghost(inner));
    proof {
        lemma_rest(parser, scanner, compiler);
        assert(state(parser, scanner, compiler) == program::for_increment(
            source,
            tested,
            begun.code.len() as int,
        ));
        match exit_jump {
            Some(jump) => {
                assert(!parser.had_error ==> parser.typing@.of(jump - 1) == at_increment.typing@.of(
                    jump - 1,
                ));
            },
            None => {},
        }
    }
    (exit_jump, loop_start)
}

/// What the body of a `for` statement does to the chunk: code is added, and
/// of the code that was there only the distance of the jump that leaves the
/// loop is filled in.
pub open spec fn looped(p0: &Parser, p1: &Parser, exit_jump: Option<usize>) -> bool {
    let earlier = &p0.current_chunk;
    let later = &p1.current_chunk;
    &&& earlier.code@.len() <= later.code@.len()
    &&& forall|i: int|
        0 <= i < earlier.code@.len() && (exit_jump is Some ==> i != exit_jump->0 && i
            != exit_jump->0 + 1) ==> later.code@[i] == earlier.code@[i]
    &&& earlier.lines@.len() <= later.lines@.len()
    &&& forall|i: int| 0 <= i < earlier.lines@.len() ==> later.lines@[i] == earlier.lines@[i]
    &&& earlier.constants@.len() <= later.constants@.len()
    &&& forall|i: int|
        0 <= i < earlier.constants@.len() ==> later.constants@[i] == earlier.constants@[i]
    &&& !p1.had_error ==> keeps_typing(
        p0.typing@,
        p1.typing@,
        if exit_jump is Some {
            earlier.code@.len() - 1
        } else {
            earlier.code@.len() as int
        },
    )
}

/// Compiles the body of a `for` statement: the statement, the loop back to
/// `loop_start`, and, if the loop has a condition, the landing of the jump
/// that leaves the loop and the `Pop` that drops the condition.
#[verifier::spinoff_prover]
fn for_body<F: Fn(String) -> u64>(
    parser: &mut Parser,
    scanner: &mut Scanner,
    compiler: &mut Compiler,
    loop_start: usize,
    exit_jump: Option<usize>,
    to_number: &F,
    Ghost(open): Ghost<Set<int>>,
)
    requires
        steady(
            old(parser),
            old(scanner),
            old(compiler),
            match exit_jump {
                Some(jump) => open.insert(jump - 1),
                None => open,
            },
        ),
        reads_all(to_number),
        numbered(old(parser), to_number),
        settled(old(parser), old(compiler)),
        loop_start <= old(parser).current_chunk.code@.len(),
        anchored(old(parser), loop_start as int, old(parser).typing@.here),
        match exit_jump {
            Some(jump) => jump >= 1 && !open.contains(jump - 1) && (!old(parser).had_error
                ==> old(parser).typing@.of(jump - 1) == old(parser).typing@.here + 1),
            None => true,
        },
    ensures
        steady(final(parser), final(scanner), final(compiler), open),
        final(scanner).source@ == old(scanner).source@,
        remaining(final(parser), final(scanner)) <= remaining(old(parser), old(scanner)),
        final(parser).keeps_errors(old(parser)),
        final(compiler).scope_depth == old(compiler).scope_depth,
        looped(old(parser), final(parser), exit_jump),
        settled(final(parser), final(compiler)),
        !final(parser).had_error ==> final(compiler).locals@ == old(compiler).locals@,
        follows(
            program::for_body(
                old(scanner).source@,
                state(old(parser), old(scanner), old(compiler)),
                loop_start as int,
                match exit_jump {
                    Some(jump) => Some(jump - 1),
                    None => None,
                },
            ),
            final(parser),
            final(scanner),
            final(compiler),
        ),
        numbered(final(parser), to_number),
    decreases remaining(old(parser), old(scanner)), 5int,
{
    reveal(program::for_body);
    let ghost base = parser.typing@.here;
    let ghost inner = match exit_jump {
        Some(jump) => open.insert(jump - 1),
        None => open,
    };
    let ghost at_body = *parser;
    proof {
        lemma_rest(parser, scanner, compiler);
    }
    statement(parser, scanner, compiler, to_number, Ghost(inner));
    proof {
        lemma_anchored(&at_body, parser, loop_start as int, base);
        lemma_rest(parser, scanner, compiler);
    }

    parser.close_loop(loop_start, Ghost(inner));

    match exit_jump {
        Some(jump) => {
            parser.finish_jump(jump, Ghost(inner));
            proof {
                assert(inner.remove(jump - 1) =~= open);
            }
            parser.emit_op(OpCode::Pop, Ghost(open));  //Condition
        },
        None => (),
    }
    proof {
        lemma_rest(parser, scanner, compiler);
    }
}

/// Compiles a `for` statement behind its keyword. The three clauses are
/// optional. The loop variable lives in a scope of its own, which ends with
/// the statement.
#[verifier::spinoff_prover]
fn for_statement<F: Fn(String) -> u64>(
    parser: &mut Parser,
    scanner: &mut Scanner,
    compiler: &mut Compiler,
    to_number: &F,
    Ghost(open): Ghost<Set<int>>,
)
    requires
        steady(old(parser), old(scanner), old(compiler), open),
        reads_all(to_number),
        numbered(old(parser), to_number),
        settled(old(parser), old(compiler)),
        old(compiler).level() + remaining(old(parser), old(scanner)) <= old(scanner).source@.len(),
    ensures
        steady(final(parser), final(scanner), final(compiler), open),
        advanced(
            old(parser),
            old(scanner),
            old(compiler),
            final(parser),
            final(scanner),
            final(compiler),
        ),
        settled(final(parser), final(compiler)),
        !final(parser).had_error ==> final(compiler).locals@ == old(compiler).locals@,
        follows(
            program::for_statement(
                old(scanner).source@,
                state(old(parser), old(scanner), old(compiler)),
            ),
            final(parser),
            final(scanner),
            final(compiler),
        ),
        numbered(final(parser), to_number),
    decreases remaining(old(parser), old(scanner)), 6int,
{
    reveal(program::for_statement);
    compiler.begin_scope();
    let ghost outer = *compiler;
    proof {
        lemma_rest(parser, scanner, compiler);
    }

    expect(parser, scanner, TokenType::LeftParen, "Expect '(' after 'for'.");
    proof {
        lemma_rest(parser, scanner, compiler);
    }

    let clauses = for_clauses(parser, scanner, compiler, to_number, Ghost(open));
    proof {
        lemma_rest(parser, scanner, compiler);
    }
    let ghost at_clauses = *compiler;

    for_body(parser, scanner, compiler, clauses.1, clauses.0, to_number, Ghost(open));
    proof {
        lemma_rest(parser, scanner, compiler);
        if !parser.had_error {
            lemma_grown_same(&outer, &at_clauses, compiler);
        }
    }

    let ghost at_end = *compiler;
    leave_scope(parser, compiler, Ghost(open));
    proof {
        if !parser.had_error {
            lemma_scope_ends(old(compiler), &outer, &at_end, compiler);
        }
        lemma_rest(parser, scanner, compiler);
    }
}

/// Locals that have grown and then stayed as they are have grown.
pub proof fn lemma_grown_same(c0: &Compiler, c1: &Compiler, c2: &Compiler)
    requires
        grown(c0, c1),
        c2.locals@ == c1.locals@,
        c2.scope_depth == c1.scope_depth,
    ensures
        grown(c0, c2),
{
}

} // verus!
