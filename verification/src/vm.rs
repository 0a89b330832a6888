//! The stack machine that executes a chunk.
//!
//! The machine runs one instruction at a time and never blocks: whatever
//! needs the outside world is handed to the host as an [`Action`]. The host
//! prints what is to be printed, computes the arithmetic on doubles that the
//! machine asks for, and calls the machine again with the result.
use crate::chunk::{data, Chunk, OpCode, OPCODES};
use crate::compiler::{compile, failures, pool_fits, reads_all, texts_of};
use crate::program::{program, Constant};
use crate::layout::{
    balanced, instruction_len, is_forward_jump, lands, lemma_reaches_step, lemma_sound_at,
    lemma_typed_at, operand16, operand_fits, reaches, typed, well_formed, Typing,
};
use crate::value::{negate_number, negated, number_less, number_lt, Datum, Value};
use crate::RoxError;
use vstd::prelude::*;
use vstd::string::*;

verus! {

/// How an interpretation ended.
#[derive(Debug, PartialEq, Eq, Structural, Clone, Copy)]
pub enum InterpretResult {
    Success,
    CompileError,
    RuntimeError,
}

// ---------------------------------------------------------------------------
// Global variables.
// ---------------------------------------------------------------------------
/// The global variables: a finite map from names to values.
pub struct Globals {
    names: Vec<String>,
    values: Vec<Value>,
    model: Ghost<Map<Seq<char>, Datum>>,
}

impl View for Globals {
    type V = Map<Seq<char>, Datum>;

    closed spec fn view(&self) -> Map<Seq<char>, Datum> {
        self.model@
    }
}

/// The two sequences list the entries of the map, each name once.
pub open spec fn lists(
    names: Seq<String>,
    values: Seq<Value>,
    model: Map<Seq<char>, Datum>,
) -> bool {
    &&& names.len() == values.len()
    &&& forall|i: int|
        0 <= i < names.len() ==> model.contains_key(#[trigger] names[i]@) && model[names[i]@]
            == values[i]@
    &&& forall|k: Seq<char>|
        model.contains_key(k) ==> exists|i: int| 0 <= i < names.len() && #[trigger] names[i]@ == k
    &&& forall|i: int, j: int|
        0 <= i < j < names.len() ==> #[trigger] names[i]@ != #[trigger] names[j]@
}

/// Writes an entry into the listing of a map: over the entry at `at`, which
/// has that name, or as a new entry where the name has none.
fn store(
    names: &mut Vec<String>,
    values: &mut Vec<Value>,
    model: &mut Ghost<Map<Seq<char>, Datum>>,
    at: Option<usize>,
    name: String,
    value: Value,
)
    requires
        lists(old(names)@, old(values)@, old(model)@),
        at is Some <==> old(model)@.contains_key(name@),
        at is Some ==> at->0 < old(names)@.len() && old(names)@[at->0 as int]@ == name@,
    ensures
        lists(final(names)@, final(values)@, final(model)@),
        final(model)@ == old(model)@.insert(name@, value@),
{
    let ghost updated = model@.insert(name@, value@);
    match at {
        Some(i) => {
            values.set(i, value);
            proof {
                assert forall|k: Seq<char>| updated.contains_key(k) implies exists|n: int|
                    0 <= n < names@.len() && #[trigger] names@[n]@ == k by {
                    if k == name@ {
                        assert(names@[i as int]@ == k);
                    } else {
                        let n = choose|n: int|
                            0 <= n < old(names)@.len() && #[trigger] old(names)@[n]@ == k;
                        assert(names@[n]@ == k);
                    }
                }
            }
        },
        None => {
            names.push(name);
            values.push(value);
            proof {
                let count = old(names)@.len() as int;
                assert forall|k: Seq<char>| updated.contains_key(k) implies exists|n: int|
                    0 <= n < names@.len() && #[trigger] names@[n]@ == k by {
                    if k == name@ {
                        assert(names@[count]@ == k);
                    } else {
                        let n = choose|n: int|
                            0 <= n < old(names)@.len() && #[trigger] old(names)@[n]@ == k;
                        assert(names@[n]@ == k);
                    }
                }
            }
        },
    }
    *model = Ghost(updated);
}

impl Globals {
    #[verifier::type_invariant]
    closed spec fn listed(&self) -> bool {
        lists(self.names@, self.values@, self.model@)
    }

    /// No variables.
    pub fn new() -> (globals: Globals)
        ensures
            globals@ == Map::<Seq<char>, Datum>::empty(),
    {
        Globals { names: Vec::new(), values: Vec::new(), model: Ghost(Map::empty()) }
    }

    /// Where the entry of `name` is listed, if it has one.
    fn find(&self, name: &String) -> (at: Option<usize>)
        ensures
            at is Some <==> self@.contains_key(name@),
            at is Some ==> at->0 < self.names@.len() && self.names@[at->0 as int]@ == name@,
    {
        proof {
            use_type_invariant(self);
        }
        let mut i: usize = 0;
        while i < self.names.len()
            invariant
                lists(self.names@, self.values@, self.model@),
                i <= self.names@.len(),
                forall|j: int| 0 <= j < i ==> self.names@[j]@ != name@,
            decreases self.names@.len() - i,
        {
            if self.names[i] == *name {
                return Some(i);
            }
            i += 1;
        }
        None
    }

    /// Whether a variable of this name is defined.
    pub fn contains(&self, name: &String) -> (defined: bool)
        ensures
            defined == self@.contains_key(name@),
    {
        self.find(name).is_some()
    }

    /// The value of the variable of this name, if it is defined.
    pub fn get(&self, name: &String) -> (value: Option<Value>)
        ensures
            value is Some <==> self@.contains_key(name@),
            value is Some ==> value->0@ == self@[name@],
    {
        proof {
            use_type_invariant(self);
        }
        match self.find(name) {
            Some(i) => Some(self.values[i].clone()),
            None => None,
        }
    }

    /// Defines the variable, or gives it a new value if it is defined.
    pub fn insert(&mut self, name: String, value: Value)
        ensures
            final(self)@ == old(self)@.insert(name@, value@),
    {
        let at = self.find(&name);
        let mut taken = Globals::new();
        core::mem::swap(self, &mut taken);
        proof {
            use_type_invariant(&taken);
        }
        let Globals { mut names, mut values, mut model } = taken;
        store(&mut names, &mut values, &mut model, at, name, value);
        *self = Globals { names, values, model };
    }
}

// ---------------------------------------------------------------------------
// The machine, as mathematics.
// ---------------------------------------------------------------------------
/// The state of a machine: the chunk it runs, the offset of the next
/// instruction, the stack, bottom first, and the global variables.
pub struct Machine {
    pub code: Seq<u8>,
    pub pool: Seq<Datum>,
    pub lines: Seq<i32>,
    pub ip: int,
    pub stack: Seq<Datum>,
    pub globals: Map<Seq<char>, Datum>,
}

/// What a step of the machine asks of its host.
pub enum Effect {
    /// Nothing: the machine can go on.
    Continue,
    /// Print this value and a newline.
    Print(Datum),
    /// Compute `left op right` on doubles, for `op` one of `Add`, `Subtract`,
    /// `Multiple` and `Divide`, and hand the result to the next step.
    Arithmetic { op: OpCode, left: u64, right: u64 },
    /// The program failed with this message at this source line.
    Fault { message: Seq<char>, line: i32 },
    /// The program has run to its `Return`.
    Finished,
    /// The budget of steps is used up; the machine can go on.
    Pause,
    /// The next instruction cannot be executed: the chunk is not one that
    /// the compiler produces.
    Stuck,
}

/// A machine after a step, and what the step asks of the host.
pub struct Outcome {
    pub machine: Machine,
    pub effect: Effect,
}

impl Machine {
    /// The opcode at the instruction pointer.
    pub open spec fn op(self) -> OpCode {
        OpCode::of_byte(self.code[self.ip])
    }

    /// The one-byte operand of the instruction at the instruction pointer.
    pub open spec fn operand(self) -> int {
        self.code[self.ip + 1] as int
    }

    /// The two-byte operand of the instruction at the instruction pointer.
    pub open spec fn distance(self) -> int {
        operand16(self.code, self.ip + 1)
    }

    /// The offset behind the instruction at the instruction pointer.
    pub open spec fn behind(self) -> int {
        self.ip + instruction_len(self.code[self.ip])
    }

    /// The value on top of the stack.
    pub open spec fn top(self) -> Datum {
        self.stack.last()
    }

    /// The value under the top of the stack.
    pub open spec fn under(self) -> Datum {
        self.stack[self.stack.len() - 2]
    }

    /// The name that the operand of a global-variable instruction refers to.
    pub open spec fn name(self) -> Seq<char> {
        self.pool[self.operand()]->Text_0
    }

    /// The machine behind the instruction, with this stack.
    pub open spec fn go(self, stack: Seq<Datum>) -> Outcome {
        Outcome { machine: Machine { ip: self.behind(), stack, ..self }, effect: Effect::Continue }
    }

    /// The machine at `ip`, with the stack as it is.
    pub open spec fn jump(self, ip: int) -> Outcome {
        Outcome { machine: Machine { ip, ..self }, effect: Effect::Continue }
    }

    /// A runtime error: the stack is cleared, and the error carries the
    /// source line of the failing instruction.
    pub open spec fn fail(self, message: Seq<char>) -> Outcome {
        Outcome {
            machine: Machine { ip: self.behind(), stack: Seq::empty(), ..self },
            effect: Effect::Fault { message, line: self.lines[self.ip] },
        }
    }

    /// The stack without its top `n` values.
    pub open spec fn without(self, n: int) -> Seq<Datum> {
        self.stack.take(self.stack.len() - n)
    }

    /// Whether the instruction at the instruction pointer can be executed:
    /// it lies within the code with its operands, and what it refers to is
    /// there: the constant, the slot, the name, the values on the stack, the
    /// target of the jump.
    pub open spec fn ready(self) -> bool {
        &&& 0 <= self.ip < self.code.len()
        &&& self.lines.len() == self.code.len()
        &&& self.code[self.ip] < OPCODES
        &&& self.behind() <= self.code.len()
        &&& match self.op() {
            OpCode::Constant => self.operand() < self.pool.len(),
            OpCode::GetLocal | OpCode::SetLocal => self.operand() < self.stack.len(),
            OpCode::GetGlobal => self.operand() < self.pool.len() && self.pool[self.operand()]
                is Text,
            OpCode::DefineGlobal | OpCode::SetGlobal => self.operand() < self.pool.len()
                && self.pool[self.operand()] is Text && self.stack.len() >= 1,
            OpCode::Pop | OpCode::Not | OpCode::Negate | OpCode::Print => self.stack.len() >= 1,
            OpCode::Equal
            | OpCode::Greater
            | OpCode::Less
            | OpCode::Add
            | OpCode::Subtract
            | OpCode::Multiple
            | OpCode::Divide => self.stack.len() >= 2,
            OpCode::Jump => self.behind() + self.distance() <= self.code.len(),
            OpCode::JumpIfFalse => self.stack.len() >= 1 && self.behind() + self.distance()
                <= self.code.len(),
            OpCode::Loop => self.distance() <= self.behind(),
            _ => true,
        }
    }

    /// Executes the instruction at the instruction pointer. `reply` is the
    /// result of the arithmetic that the previous step asked for, if it asked.
    pub open spec fn next(self, reply: Option<u64>) -> Outcome {
        match self.op() {
            OpCode::Constant => self.go(self.stack.push(self.pool[self.operand()])),
            OpCode::Nil => self.go(self.stack.push(Datum::Nil)),
            OpCode::True => self.go(self.stack.push(Datum::Boolean(true))),
            OpCode::False => self.go(self.stack.push(Datum::Boolean(false))),
            OpCode::Pop => self.go(self.without(1)),
            OpCode::GetLocal => self.go(self.stack.push(self.stack[self.operand()])),
            OpCode::SetLocal => self.go(self.stack.update(self.operand(), self.top())),
            OpCode::GetGlobal => if self.globals.contains_key(self.name()) {
                self.go(self.stack.push(self.globals[self.name()]))
            } else {
                self.fail(undefined_variable(self.name()))
            },
            OpCode::DefineGlobal => Outcome {
                machine: Machine {
                    ip: self.behind(),
                    stack: self.without(1),
                    globals: self.globals.insert(self.name(), self.top()),
                    ..self
                },
                effect: Effect::Continue,
            },
            OpCode::SetGlobal => if self.globals.contains_key(self.name()) {
                Outcome {
                    machine: Machine {
                        ip: self.behind(),
                        globals: self.globals.insert(self.name(), self.top()),
                        ..self
                    },
                    effect: Effect::Continue,
                }
            } else {
                self.fail(undefined_variable(self.name()))
            },
            OpCode::Equal => self.go(
                self.without(2).push(Datum::Boolean(self.under().equals(self.top()))),
            ),
            OpCode::Greater => match (self.under(), self.top()) {
                (Datum::Number(a), Datum::Number(b)) => self.go(
                    self.without(2).push(Datum::Boolean(number_lt(b, a))),
                ),
                _ => self.fail("Operands must be numbers."@),
            },
            OpCode::Less => match (self.under(), self.top()) {
                (Datum::Number(a), Datum::Number(b)) => self.go(
                    self.without(2).push(Datum::Boolean(number_lt(a, b))),
                ),
                _ => self.fail("Operands must be numbers."@),
            },
            OpCode::Add => match (self.under(), self.top()) {
                (Datum::Text(a), Datum::Text(b)) => self.go(
                    self.without(2).push(Datum::Text(a + b)),
                ),
                (Datum::Number(a), Datum::Number(b)) => self.compute(a, b, reply),
                _ => self.fail("Operands must be two numbers or two strings."@),
            },
            OpCode::Subtract | OpCode::Multiple | OpCode::Divide => match (
                self.under(),
                self.top(),
            ) {
                (Datum::Number(a), Datum::Number(b)) => self.compute(a, b, reply),
                _ => self.fail("Operands must be numbers."@),
            },
            OpCode::Not => self.go(self.without(1).push(Datum::Boolean(self.top().is_falsey()))),
            OpCode::Negate => match self.top() {
                Datum::Number(n) => self.go(self.without(1).push(Datum::Number(negated(n)))),
                _ => self.fail("Operand must be a number."@),
            },
            OpCode::Print => Outcome {
                machine: Machine { ip: self.behind(), stack: self.without(1), ..self },
                effect: Effect::Print(self.top()),
            },
            OpCode::Jump => self.jump(self.behind() + self.distance()),
            OpCode::JumpIfFalse => if self.top().is_falsey() {
                self.jump(self.behind() + self.distance())
            } else {
                self.jump(self.behind())
            },
            OpCode::Loop => self.jump(self.behind() - self.distance()),
            OpCode::Return => Outcome {
                machine: Machine { ip: self.behind(), ..self },
                effect: Effect::Finished,
            },
        }
    }

    /// Arithmetic on two numbers: without a reply the machine stays where it
    /// is and asks the host; with the reply it replaces the operands by it.
    pub open spec fn compute(self, left: u64, right: u64, reply: Option<u64>) -> Outcome {
        match reply {
            Some(bits) => self.go(self.without(2).push(Datum::Number(bits))),
            None => Outcome { machine: self, effect: Effect::Arithmetic { op: self.op(), left, right } },
        }
    }

    /// Runs until the host is needed, the program ends, or `budget` steps
    /// are done.
    pub open spec fn run(self, reply: Option<u64>, budget: nat) -> Outcome
        decreases budget,
    {
        if budget == 0 {
            Outcome { machine: self, effect: Effect::Pause }
        } else if !self.ready() {
            Outcome { machine: self, effect: Effect::Stuck }
        } else {
            let after = self.next(reply);
            if after.effect is Continue {
                after.machine.run(None, (budget - 1) as nat)
            } else {
                after
            }
        }
    }
}

/// The message of the error that reading or assigning an undefined global
/// gives.
pub open spec fn undefined_variable(name: Seq<char>) -> Seq<char> {
    "Undefined variable '"@ + name + "'."@
}

/// A step changes nothing of the chunk.
pub proof fn lemma_next_keeps_chunk(m: Machine, reply: Option<u64>)
    ensures
        m.next(reply).machine.code == m.code,
        m.next(reply).machine.pool == m.pool,
        m.next(reply).machine.lines == m.lines,
{
}

/// A run changes nothing of the chunk.
pub proof fn lemma_run_keeps_chunk(m: Machine, reply: Option<u64>, budget: nat)
    ensures
        m.run(reply, budget).machine.code == m.code,
        m.run(reply, budget).machine.pool == m.pool,
        m.run(reply, budget).machine.lines == m.lines,
    decreases budget,
{
    if budget > 0 && m.ready() {
        lemma_next_keeps_chunk(m, reply);
        if m.next(reply).effect is Continue {
            lemma_run_keeps_chunk(m.next(reply).machine, None, (budget - 1) as nat);
        }
    }
}

/// A step that goes on leaves the instruction pointer inside the code or
/// just behind it.
pub proof fn lemma_next_stays_inside(m: Machine, reply: Option<u64>)
    requires
        m.ready(),
    ensures
        0 <= m.next(reply).machine.ip <= m.code.len(),
{
}

/// `JumpIfFalse` looks at the top of the stack and leaves it there; whether
/// it jumps depends on nothing but whether that value is `nil` or `false`.
pub proof fn lemma_jump_if_false(m: Machine, reply: Option<u64>)
    requires
        m.ready(),
        m.op() == OpCode::JumpIfFalse,
    ensures
        m.next(reply).machine.stack == m.stack,
        m.next(reply).machine.ip == if m.top() == Datum::Nil || m.top() == Datum::Boolean(false) {
            m.ip + 3 + m.distance()
        } else {
            m.ip + 3
        },
{
}

// ---------------------------------------------------------------------------
// The height of the stack while a program runs.
// ---------------------------------------------------------------------------
/// The machine stands at the start of an instruction, and its stack is as
/// high as the code expects there, counted from `base`.
pub open spec fn tracks(m: Machine, h: Typing, base: int) -> bool {
    &&& 0 <= m.ip <= m.code.len()
    &&& reaches(m.code, 0, m.ip)
    &&& m.stack.len() == base + h.of(m.ip)
}

/// What holds of a machine after it has handed control to its host, if it
/// was on track before: it still is, unless the program failed, which
/// clears the stack; and when the program has finished, the stack is as it
/// was in front of the `Return`.
pub open spec fn on_track(before: Machine, after: Outcome, h: Typing, base: int) -> bool {
    match after.effect {
        Effect::Fault { .. } => true,
        Effect::Finished => {
            &&& after.machine.stack.len() == base + h.of(after.machine.ip - 1)
            &&& reaches(before.code, 0, after.machine.ip - 1)
        },
        _ => tracks(after.machine, h, base),
    }
}

/// One instruction of code whose heights fit takes a machine that is on
/// track to a machine that is on track.
pub proof fn lemma_step_keeps_track(m: Machine, h: Typing, base: int, reply: Option<u64>)
    requires
        typed(m.code, h, Set::empty()),
        tracks(m, h, base),
        m.ready(),
    ensures
        on_track(m, m.next(reply), h, base),
{
    let open = Set::<int>::empty();
    lemma_typed_at(m.code, 0, m.ip, h, open);
    lemma_sound_at(m.code, 0, m.ip, open);
    lemma_reaches_step(m.code, 0, m.ip);
    let byte = m.code[m.ip];
    assert(m.op() == OpCode::of_byte(byte));
    assert(m.op().to_byte() == byte);
    if is_forward_jump(byte) || byte == OpCode::Loop.to_byte() {
        assert(lands(m.code, m.ip));
    }
}

/// However long code whose heights fit runs, and whatever the host replies,
/// the machine stays on track.
pub proof fn lemma_run_keeps_track(
    m: Machine,
    h: Typing,
    base: int,
    reply: Option<u64>,
    budget: nat,
)
    requires
        typed(m.code, h, Set::empty()),
        tracks(m, h, base),
    ensures
        on_track(m, m.run(reply, budget), h, base),
        m.run(reply, budget).machine.code == m.code,
    decreases budget,
{
    lemma_run_keeps_chunk(m, reply, budget);
    if budget > 0 && m.ready() {
        lemma_step_keeps_track(m, h, base, reply);
        lemma_next_keeps_chunk(m, reply);
        let after = m.next(reply);
        if after.effect is Continue {
            lemma_run_keeps_track(after.machine, h, base, None, (budget - 1) as nat);
        }
    }
}

/// A program that the compiler produced leaves the stack as high as it
/// finds it: whenever the machine hands control to its host in front of a
/// statement of the top level, and when the program has run to its final
/// `Return`, the stack is as high as it was when the program started.
pub proof fn lemma_statements_keep_height(
    m: Machine,
    h: Typing,
    reply: Option<u64>,
    budget: nat,
)
    requires
        balanced(m.code, h),
        m.ip == 0,
    ensures
        ({
            let after = m.run(reply, budget);
            match after.effect {
                Effect::Fault { .. } => true,
                Effect::Finished => h.marks.contains(after.machine.ip - 1)
                    ==> after.machine.stack.len() == m.stack.len(),
                _ => h.marks.contains(after.machine.ip) ==> after.machine.stack.len()
                    == m.stack.len(),
            }
        }),
{
    let base = m.stack.len() as int;
    assert(h.of(0) == 0);
    lemma_run_keeps_track(m, h, base, reply, budget);
}

/// The same, for a machine that goes on after it had stopped in front of a
/// statement of the top level.
pub proof fn lemma_statements_keep_height_on(
    m: Machine,
    h: Typing,
    reply: Option<u64>,
    budget: nat,
)
    requires
        balanced(m.code, h),
        reaches(m.code, 0, m.ip),
        0 <= m.ip <= m.code.len(),
        h.marks.contains(m.ip),
    ensures
        ({
            let after = m.run(reply, budget);
            match after.effect {
                Effect::Fault { .. } => true,
                Effect::Finished => h.marks.contains(after.machine.ip - 1)
                    ==> after.machine.stack.len() == m.stack.len(),
                _ => h.marks.contains(after.machine.ip) ==> after.machine.stack.len()
                    == m.stack.len(),
            }
        }),
{
    let base = m.stack.len() as int;
    assert(h.of(m.ip) == 0);
    lemma_run_keeps_track(m, h, base, reply, budget);
}

/// The pool holds what was written: a string has the characters that were
/// written, and a number is what the callback makes of the literal that was
/// written.
pub open spec fn pool_shows<F: Fn(String) -> u64>(
    pool: Seq<Datum>,
    written: Seq<Constant>,
    to_number: &F,
) -> bool {
    &&& pool.len() == written.len()
    &&& forall|i: int|
        0 <= i < written.len() ==> match #[trigger] written[i] {
            Constant::Text(text) => pool[i] == Datum::Text(text),
            Constant::Number(literal) => pool[i] is Number && exists|text: String|
                text@ == literal && call_ensures(to_number, (text,), pool[i]->Number_0),
        }
}

/// The contents of constants that are what was written show what was
/// written.
pub proof fn lemma_pool_shows<F: Fn(String) -> u64>(
    constants: Seq<Value>,
    written: Seq<Constant>,
    to_number: &F,
)
    requires
        pool_fits(constants, written, to_number),
    ensures
        pool_shows(data(constants), written, to_number),
{
    let pool = data(constants);
    assert forall|i: int| 0 <= i < written.len() implies match #[trigger] written[i] {
        Constant::Text(text) => pool[i] == Datum::Text(text),
        Constant::Number(literal) => pool[i] is Number && exists|text: String|
            text@ == literal && call_ensures(to_number, (text,), pool[i]->Number_0),
    } by {
        assert(pool[i] == constants[i]@);
    }
}

/// The typing knows which constants of the pool are strings.
pub open spec fn pool_kinds(pool: Seq<Datum>, texts: Seq<bool>) -> bool {
    &&& texts.len() == pool.len()
    &&& forall|i: int| 0 <= i < pool.len() ==> texts[i] == (#[trigger] pool[i] is Text)
}

/// The machine runs a program that the compiler produced, and is on track:
/// it stands at an instruction of the program, with its stack as high as
/// the program expects there, counted from `base`.
pub open spec fn sound(m: Machine, h: Typing, base: int) -> bool {
    &&& balanced(m.code, h)
    &&& pool_kinds(m.pool, h.texts)
    &&& m.lines.len() == m.code.len()
    &&& base >= 0
    &&& tracks(m, h, base)
    &&& m.ip < m.code.len()
}

/// A sound machine can execute its next instruction.
pub proof fn lemma_sound_is_ready(m: Machine, h: Typing, base: int)
    requires
        sound(m, h, base),
    ensures
        m.ready(),
{
    let open = Set::<int>::empty();
    lemma_typed_at(m.code, 0, m.ip, h, open);
    lemma_sound_at(m.code, 0, m.ip, open);
    let byte = m.code[m.ip];
    assert(m.op() == OpCode::of_byte(byte));
    assert(m.op().to_byte() == byte);
    if is_forward_jump(byte) || byte == OpCode::Loop.to_byte() {
        assert(lands(m.code, m.ip));
    }
    if instruction_len(byte) == 2 {
        assert(operand_fits(byte, m.code[m.ip + 1], h.texts, h.of(m.ip)));
    }
}

/// A step takes a sound machine to a sound machine, unless it ends the
/// program.
pub proof fn lemma_step_keeps_sound(m: Machine, h: Typing, base: int, reply: Option<u64>)
    requires
        sound(m, h, base),
    ensures
        m.ready(),
        match m.next(reply).effect {
            Effect::Fault { .. } | Effect::Finished => true,
            _ => sound(m.next(reply).machine, h, base),
        },
{
    let open = Set::<int>::empty();
    lemma_sound_is_ready(m, h, base);
    lemma_step_keeps_track(m, h, base, reply);
    lemma_next_keeps_chunk(m, reply);
    lemma_typed_at(m.code, 0, m.ip, h, open);
    lemma_sound_at(m.code, 0, m.ip, open);
    let byte = m.code[m.ip];
    assert(m.op() == OpCode::of_byte(byte));
    assert(m.op().to_byte() == byte);
}

/// A program that the compiler produced never gets stuck: whatever the host
/// replies, and however long the program runs, the machine finds every
/// instruction it comes to executable.
pub proof fn lemma_run_never_stuck(
    m: Machine,
    h: Typing,
    base: int,
    reply: Option<u64>,
    budget: nat,
)
    requires
        sound(m, h, base),
    ensures
        !(m.run(reply, budget).effect is Stuck),
        match m.run(reply, budget).effect {
            Effect::Fault { .. } | Effect::Finished => true,
            _ => sound(m.run(reply, budget).machine, h, base),
        },
    decreases budget,
{
    if budget > 0 {
        lemma_step_keeps_sound(m, h, base, reply);
        let after = m.next(reply);
        if after.effect is Continue {
            lemma_run_never_stuck(after.machine, h, base, None, (budget - 1) as nat);
        }
    }
}

// ---------------------------------------------------------------------------
// The machine.
// ---------------------------------------------------------------------------
/// What the machine hands to its host.
#[derive(Debug)]
pub enum Action {
    /// Nothing: the machine can go on.
    Continue,
    /// Print this value and a newline.
    Print(Value),
    /// Compute `left op right` on doubles and hand the result to the next
    /// step.
    Arithmetic { op: OpCode, left: u64, right: u64 },
    /// The program failed with this message at this source line.
    Fault { message: String, line: i32 },
    /// The program has run to its end.
    Finished,
    /// The source did not compile; these are the diagnostics.
    Rejected(Vec<RoxError>),
    /// The budget of steps is used up; the machine can go on.
    Pause,
    /// The next instruction cannot be executed.
    Stuck,
}

impl Action {
    /// What the action asks of the host; `None` for a rejected source, which
    /// no machine has run.
    pub open spec fn effect(&self) -> Option<Effect> {
        match self {
            Action::Continue => Some(Effect::Continue),
            Action::Print(v) => Some(Effect::Print(v@)),
            Action::Arithmetic { op, left, right } => Some(
                Effect::Arithmetic { op: *op, left: *left, right: *right },
            ),
            Action::Fault { message, line } => Some(Effect::Fault { message: message@, line: *line }),
            Action::Finished => Some(Effect::Finished),
            Action::Rejected(_) => None,
            Action::Pause => Some(Effect::Pause),
            Action::Stuck => Some(Effect::Stuck),
        }
    }

    /// How the interpretation ended, if this action ends it.
    pub fn result(&self) -> (r: Option<InterpretResult>)
        ensures
            r == match self {
                Action::Finished => Some(InterpretResult::Success),
                Action::Rejected(_) => Some(InterpretResult::CompileError),
                Action::Fault { .. } => Some(InterpretResult::RuntimeError),
                _ => None,
            },
    {
        match self {
            Action::Finished => Some(InterpretResult::Success),
            Action::Rejected(_) => Some(InterpretResult::CompileError),
            Action::Fault { .. } => Some(InterpretResult::RuntimeError),
            _ => None,
        }
    }
}

/// The virtual machine: a chunk, the offset of the next instruction, the
/// value stack, and the global variables.
pub struct VM {
    pub chunk: Chunk,
    pub ip: usize,  //Instruction Pointer
    pub stack: Vec<Value>,
    pub globals: Globals,
}

impl View for VM {
    type V = Machine;

    open spec fn view(&self) -> Machine {
        Machine {
            code: self.chunk.code@,
            pool: self.chunk.pool(),
            lines: self.chunk.lines@,
            ip: self.ip as int,
            stack: data(self.stack@),
            globals: self.globals@,
        }
    }
}

impl VM {
    /// A machine with an empty chunk, an empty stack and no globals.
    pub fn new() -> (vm: VM)
        ensures
            vm@.code == Seq::<u8>::empty(),
            vm@.pool == Seq::<Datum>::empty(),
            vm@.lines == Seq::<i32>::empty(),
            vm@.ip == 0,
            vm@.stack == Seq::<Datum>::empty(),
            vm@.globals == Map::<Seq<char>, Datum>::empty(),
    {
        let vm = VM { chunk: Chunk::new(), ip: 0, stack: Vec::new(), globals: Globals::new() };
        proof {
            assert(vm@.pool =~= Seq::<Datum>::empty());
            assert(vm@.stack =~= Seq::<Datum>::empty());
        }
        vm
    }

    /// Compiles `source` and starts to run it. A source that is no program
    /// is rejected with its diagnostics, which are the errors that the
    /// definition of programs gives, and leaves the machine as it was.
    /// Otherwise the chunk of
    /// the program replaces the chunk of the machine and runs from its first
    /// instruction, on the stack and the globals that the machine has, until
    /// the host is needed, the program ends, or `budget` steps are done; the
    /// host goes on with `run`. The machine never gets stuck in the program.
    pub fn interpret<F: Fn(String) -> u64>(
        &mut self,
        source: &str,
        to_number: &F,
        budget: u64,
    ) -> (action: Action)
        requires
            source@.len() < i32::MAX,
            reads_all(to_number),
        ensures
            action is Rejected <==> program(source@) is Err,
            action is Rejected ==> {
                &&& final(self)@ == old(self)@
                &&& action->Rejected_0@.len() > 0
                &&& program(source@)->Err_0 == failures(action->Rejected_0@)
            },
            !(action is Rejected) ==> {
                let start = Machine {
                    ip: 0,
                    stack: old(self)@.stack,
                    globals: old(self)@.globals,
                    ..final(self)@
                };
                &&& start.code == program(source@)->Ok_0.code
                &&& start.lines == program(source@)->Ok_0.lines
                &&& pool_shows(start.pool, program(source@)->Ok_0.pool, to_number)
                &&& well_formed(start.code)
                &&& exists|h: Typing| sound(start, h, start.stack.len() as int)
                &&& !(action is Stuck)
                &&& start.lines.len() == start.code.len()
                &&& start.code.len() > 0
                &&& start.code.last() == OpCode::Return.to_byte()
                &&& action.effect() == Some(start.run(None, budget as nat).effect)
                &&& final(self)@ == start.run(None, budget as nat).machine
            },
    {
        match compile(source, to_number) {
            Ok(c) => {
                self.chunk = c;
                self.ip = 0;
                let ghost start = self@;
                proof {
                    lemma_run_keeps_chunk(start, None, budget as nat);
                    lemma_pool_shows(self.chunk.constants@, program(source@)->Ok_0.pool, to_number);
                    let h = choose|h: Typing|
                        balanced(self.chunk.code@, h) && h.texts == texts_of(
                            self.chunk.constants@,
                        );
                    assert(h.of(0) == 0);
                    assert(sound(start, h, start.stack.len() as int));
                    lemma_run_never_stuck(start, h, start.stack.len() as int, None, budget as nat);
                }
                let action = self.run(None, budget);
                proof {
                    assert(start == Machine {
                        ip: 0,
                        stack: old(self)@.stack,
                        globals: old(self)@.globals,
                        ..self@
                    });
                }
                action
            },
            Err(errors) => Action::Rejected(errors),
        }
    }

    /// Runs the machine until the host is needed, the program ends, or
    /// `budget` steps are done. `reply` is the result of the arithmetic that
    /// the machine asked for last, if that is why it stopped.
    pub fn run(&mut self, reply: Option<u64>, budget: u64) -> (action: Action)
        ensures
            action.effect() == Some(old(self)@.run(reply, budget as nat).effect),
            final(self)@ == old(self)@.run(reply, budget as nat).machine,
    {
        let mut pending = reply;
        let mut left = budget;
        loop
            invariant
                self@.run(pending, left as nat) == old(self)@.run(reply, budget as nat),
            decreases left,
        {
            if left == 0 {
                return Action::Pause;
            }
            if !self.is_ready() {
                return Action::Stuck;
            }
            let action = self.step(pending);
            match action {
                Action::Continue => {},
                _ => {
                    return action;
                },
            }
            pending = None;
            left = left - 1;
        }
    }

    /// Whether the next instruction can be executed.
    pub fn is_ready(&self) -> (ready: bool)
        ensures
            ready == self@.ready(),
    {
        let code = &self.chunk.code;
        if self.ip >= code.len() || self.chunk.lines.len() != code.len() {
            return false;
        }
        let op = match OpCode::decode(code[self.ip]) {
            Some(op) => op,
            None => {
                return false;
            },
        };
        let operands = op.operand_count();
        if operands > code.len() - self.ip - 1 {
            return false;
        }
        let depth = self.stack.len();
        match op {
            OpCode::Constant => (code[self.ip + 1] as usize) < self.chunk.constants.len(),
            OpCode::GetLocal | OpCode::SetLocal => (code[self.ip + 1] as usize) < depth,
            OpCode::GetGlobal => self.names_global(),
            OpCode::DefineGlobal | OpCode::SetGlobal => self.names_global() && depth >= 1,
            OpCode::Pop | OpCode::Not | OpCode::Negate | OpCode::Print => depth >= 1,
            OpCode::Equal
            | OpCode::Greater
            | OpCode::Less
            | OpCode::Add
            | OpCode::Subtract
            | OpCode::Multiple
            | OpCode::Divide => depth >= 2,
            OpCode::Jump => self.distance() <= code.len() - self.ip - 3,
            OpCode::JumpIfFalse => depth >= 1 && self.distance() <= code.len() - self.ip - 3,
            OpCode::Loop => self.distance() <= self.ip + 3,
            _ => true,
        }
    }

    /// Whether the operand of the instruction is the index of a constant
    /// that is a string.
    fn names_global(&self) -> (named: bool)
        requires
            self.ip + 1 < self.chunk.code@.len(),
        ensures
            named == (self@.operand() < self@.pool.len() && self@.pool[self@.operand()] is Text),
    {
        let limit = self.chunk.code.len();
        assert(self.ip + 1 < limit);
        let index = self.chunk.code[self.ip + 1] as usize;
        index < self.chunk.constants.len() && self.chunk.constants[index].is_string()
    }

    /// The two-byte operand of the instruction.
    fn distance(&self) -> (distance: usize)
        requires
            self.ip + 2 < self.chunk.code@.len(),
        ensures
            distance == self@.distance(),
    {
        let limit = self.chunk.code.len();
        assert(self.ip + 2 < limit);
        let high = self.chunk.code[self.ip + 1] as usize;
        let low = self.chunk.code[self.ip + 2] as usize;
        high * 256 + low
    }

    /// Executes one instruction.
    pub fn step(&mut self, reply: Option<u64>) -> (action: Action)
        requires
            old(self)@.ready(),
        ensures
            action.effect() == Some(old(self)@.next(reply).effect),
            final(self)@ == old(self)@.next(reply).machine,
    {
        let at = self.ip;
        let limit = self.chunk.code.len();
        let line = self.chunk.lines[at];
        let instruction = OpCode::from(self.read_byte());

        match instruction {
            OpCode::Constant => {
                let constant = self.read_constant();
                self.push(constant);
                Action::Continue
            },
            OpCode::Nil => {
                self.push(Value::Nil);
                Action::Continue
            },
            OpCode::True => {
                self.push(Value::Boolean(true));
                Action::Continue
            },
            OpCode::False => {
                self.push(Value::Boolean(false));
                Action::Continue
            },
            OpCode::Pop => {
                self.pop();
                Action::Continue
            },
            OpCode::GetLocal => {
                let slot = self.read_byte() as usize;
                let value = self.stack[slot].clone();
                self.push(value);
                Action::Continue
            },
            OpCode::SetLocal => {
                let slot = self.read_byte() as usize;
                let value = self.peek(0).clone();
                self.stack.set(slot, value);
                proof {
                    assert(self@.stack =~= old(self)@.stack.update(slot as int, old(self)@.top()));
                }
                Action::Continue
            },
            OpCode::GetGlobal => {
                let name = self.read_name();
                match self.globals.get(&name) {
                    Some(value) => {
                        self.push(value);
                        Action::Continue
                    },
                    None => self.runtime_error(undefined(&name), line),
                }
            },
            OpCode::DefineGlobal => {
                let name = self.read_name();
                let value = self.pop();
                self.globals.insert(name, value);
                Action::Continue
            },
            OpCode::SetGlobal => {
                let name = self.read_name();
                if !self.globals.contains(&name) {
                    return self.runtime_error(undefined(&name), line);
                }
                let value = self.peek(0).clone();
                self.globals.insert(name, value);
                Action::Continue
            },
            OpCode::Equal => {
                let b = self.pop();
                let a = self.pop();
                self.push(Value::Boolean(a.equals(&b)));
                proof {
                    lemma_two_off(old(self)@.stack);
                }
                Action::Continue
            },
            OpCode::Greater => {
                proof {
                    lemma_two_off(old(self)@.stack);
                }
                if self.peek(0).is_number() && self.peek(1).is_number() {
                    let b = self.pop().into_number();
                    let a = self.pop().into_number();
                    self.push(Value::Boolean(number_less(b, a)));
                    Action::Continue
                } else {
                    self.runtime_error(String::from_str("Operands must be numbers."), line)
                }
            },
            OpCode::Less => {
                proof {
                    lemma_two_off(old(self)@.stack);
                }
                if self.peek(0).is_number() && self.peek(1).is_number() {
                    let b = self.pop().into_number();
                    let a = self.pop().into_number();
                    self.push(Value::Boolean(number_less(a, b)));
                    Action::Continue
                } else {
                    self.runtime_error(String::from_str("Operands must be numbers."), line)
                }
            },
            OpCode::Add => {
                proof {
                    lemma_two_off(old(self)@.stack);
                }
                if self.peek(0).is_string() && self.peek(1).is_string() {
                    let b = self.pop();
                    let a = self.pop();
                    self.push(Value::String(joined(a, b)));
                    Action::Continue
                } else if self.peek(0).is_number() && self.peek(1).is_number() {
                    self.arithmetic(instruction, at, reply)
                } else {
                    self.runtime_error(
                        String::from_str("Operands must be two numbers or two strings."),
                        line,
                    )
                }
            },
            OpCode::Subtract | OpCode::Multiple | OpCode::Divide => {
                if self.peek(0).is_number() && self.peek(1).is_number() {
                    self.arithmetic(instruction, at, reply)
                } else {
                    self.runtime_error(String::from_str("Operands must be numbers."), line)
                }
            },
            OpCode::Not => {
                let value = self.pop().is_falsey();
                self.push(Value::Boolean(value));
                Action::Continue
            },
            OpCode::Negate => {
                if self.peek(0).is_number() {
                    let n = self.pop().into_number();
                    self.push(Value::Number(negate_number(n)));
                    Action::Continue
                } else {
                    self.runtime_error(String::from_str("Operand must be a number."), line)
                }
            },
            OpCode::Print => {
                let value = self.pop();
                Action::Print(value)
            },
            OpCode::Jump => {
                let offset = self.read_short() as usize;
                self.ip += offset;
                Action::Continue
            },
            OpCode::JumpIfFalse => {
                let offset = self.read_short() as usize;

                if self.peek(0).is_falsey() {
                    self.ip += offset;
                }
                Action::Continue
            },
            OpCode::Loop => {
                let offset = self.read_short() as usize;
                self.ip -= offset;
                Action::Continue
            },
            OpCode::Return => Action::Finished,
        }
    }

    /// Arithmetic on the two numbers on top of the stack: asks the host, or
    /// puts the host's reply in their place. `at` is the offset of the
    /// instruction, whose opcode has been read.
    fn arithmetic(&mut self, op: OpCode, at: usize, reply: Option<u64>) -> (action: Action)
        requires
            old(self)@.stack.len() >= 2,
            old(self)@.stack.last() is Number,
            old(self)@.stack[old(self)@.stack.len() - 2] is Number,
            old(self).ip == at + 1,
        ensures
            match reply {
                Some(bits) => {
                    &&& action is Continue
                    &&& final(self)@ == Machine {
                        stack: old(self)@.stack.take(old(self)@.stack.len() - 2).push(
                            Datum::Number(bits),
                        ),
                        ..old(self)@
                    }
                },
                None => {
                    &&& action == Action::Arithmetic {
                        op,
                        left: old(self)@.stack[old(self)@.stack.len() - 2]->Number_0,
                        right: old(self)@.stack.last()->Number_0,
                    }
                    &&& final(self)@ == Machine { ip: at as int, ..old(self)@ }
                },
            },
    {
        match reply {
            Some(bits) => {
                self.pop();
                self.pop();
                self.push(Value::Number(bits));
                proof {
                    lemma_two_off(old(self)@.stack);
                }
                Action::Continue
            },
            None => {
                let right = self.peek(0).clone().into_number();
                let left = self.peek(1).clone().into_number();
                self.ip = at;
                Action::Arithmetic { op, left, right }
            },
        }
    }

    /// Reads the byte at the instruction pointer and moves past it.
    pub fn read_byte(&mut self) -> (byte: u8)
        requires
            old(self).ip < old(self).chunk.code@.len(),
        ensures
            byte == old(self).chunk.code@[old(self).ip as int],
            final(self).ip == old(self).ip + 1,
            final(self)@ == (Machine { ip: old(self).ip + 1, ..old(self)@ }),
            final(self).chunk.constants@ == old(self).chunk.constants@,
            final(self).stack@ == old(self).stack@,
    {
        let limit = self.chunk.code.len();
        assert(self.ip < limit);
        let byte = self.chunk.code[self.ip];
        self.ip += 1;
        byte
    }

    /// Reads the byte at the instruction pointer as the index of a constant
    /// and returns that constant.
    pub fn read_constant(&mut self) -> (value: Value)
        requires
            old(self).ip < old(self).chunk.code@.len(),
            old(self).chunk.code@[old(self).ip as int] < old(self).chunk.constants@.len(),
        ensures
            value@ == old(self)@.pool[old(self).chunk.code@[old(self).ip as int] as int],
            final(self).ip == old(self).ip + 1,
            final(self)@ == (Machine { ip: old(self).ip + 1, ..old(self)@ }),
    {
        let index = self.read_byte() as usize;
        self.chunk.constants[index].clone()
    }

    /// Reads the constant that the operand refers to as a name.
    fn read_name(&mut self) -> (name: String)
        requires
            old(self).ip < old(self).chunk.code@.len(),
            old(self).chunk.code@[old(self).ip as int] < old(self).chunk.constants@.len(),
            old(self)@.pool[old(self).chunk.code@[old(self).ip as int] as int] is Text,
        ensures
            name@ == old(self)@.pool[old(self).chunk.code@[old(self).ip as int] as int]->Text_0,
            final(self).ip == old(self).ip + 1,
            final(self)@ == (Machine { ip: old(self).ip + 1, ..old(self)@ }),
    {
        match self.read_constant() {
            Value::String(name) => name,
            _ => String::new(),
        }
    }

    /// Reads the two bytes at the instruction pointer as a big-endian number.
    pub fn read_short(&mut self) -> (short: u16)
        requires
            old(self).ip + 2 <= old(self).chunk.code@.len(),
        ensures
            short == operand16(old(self).chunk.code@, old(self).ip as int),
            final(self).ip == old(self).ip + 2,
            final(self)@ == (Machine { ip: old(self).ip + 2, ..old(self)@ }),
    {
        let limit = self.chunk.code.len();
        assert(self.ip + 2 <= limit);
        let high = self.chunk.code[self.ip] as u16;
        let low = self.chunk.code[self.ip + 1] as u16;
        self.ip += 2;
        high * 256 + low
    }

    /// Puts a value on top of the stack.
    pub fn push(&mut self, value: Value)
        ensures
            final(self).stack@ == old(self).stack@.push(value),
            final(self)@ == (Machine { stack: old(self)@.stack.push(value@), ..old(self)@ }),
    {
        self.stack.push(value);
        proof {
            assert(self@.stack =~= old(self)@.stack.push(value@));
        }
    }

    /// Takes the top value off the stack.
    pub fn pop(&mut self) -> (value: Value)
        requires
            old(self).stack@.len() > 0,
        ensures
            value == old(self).stack@.last(),
            value@ == old(self)@.stack.last(),
            final(self).stack@ == old(self).stack@.drop_last(),
            final(self)@ == (Machine {
                stack: old(self)@.stack.take(old(self)@.stack.len() - 1),
                ..old(self)@
            }),
    {
        let popped = self.stack.pop();
        proof {
            assert(self@.stack =~= old(self)@.stack.take(old(self)@.stack.len() - 1));
        }
        match popped {
            Some(value) => value,
            None => Value::Nil,
        }
    }

    /// The value `distance` places under the top of the stack.
    pub fn peek(&self, distance: usize) -> (value: &Value)
        requires
            distance < self.stack@.len(),
        ensures
            *value == self.stack@[self.stack@.len() - 1 - distance],
            value@ == self@.stack[self@.stack.len() - 1 - distance],
    {
        &self.stack[(self.stack.len() - 1) - distance]
    }

    /// Ends the run with a runtime error: the stack is cleared, and the
    /// message goes to the host with the source line of the failure.
    pub fn runtime_error(&mut self, message: String, line: i32) -> (action: Action)
        ensures
            action == (Action::Fault { message, line }),
            final(self)@ == (Machine { stack: Seq::empty(), ..old(self)@ }),
    {
        self.stack.clear();
        proof {
            assert(self@.stack =~= Seq::<Datum>::empty());
        }
        Action::Fault { message, line }
    }
}

/// The message for a global that is not defined.
fn undefined(name: &String) -> (message: String)
    ensures
        message@ == undefined_variable(name@),
{
    let mut message = String::from_str("Undefined variable '");
    message.append(name.as_str());
    message.append("'.");
    message
}

/// The string made of the characters of two string values, one after the
/// other; of anything else, the empty string.
fn joined(a: Value, b: Value) -> (text: String)
    ensures
        a@ is Text && b@ is Text ==> text@ == a@->Text_0 + b@->Text_0,
{
    match a {
        Value::String(left) => match b {
            Value::String(right) => left.concat(right.as_str()),
            _ => String::new(),
        },
        _ => String::new(),
    }
}

/// Taking two values off a stack is taking one off twice.
proof fn lemma_two_off(stack: Seq<Datum>)
    requires
        stack.len() >= 2,
    ensures
        stack.take(stack.len() - 1).take(stack.len() - 2) == stack.take(stack.len() - 2),
        stack.take(stack.len() - 1).last() == stack[stack.len() - 2],
{
    assert(stack.take(stack.len() - 1).take(stack.len() - 2) =~= stack.take(stack.len() - 2));
}

} // verus!
