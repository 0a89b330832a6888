//! The layout of code: where instructions start, and where jumps land.
//!
//! Code is a sequence of instructions, each an opcode byte followed by its
//! operands. Operand bytes may look like opcodes, so "the instruction at
//! offset `b`" only makes sense for offsets that decoding from the start
//! reaches. This module defines that notion, the well-formedness of finished
//! code, and the facts the compiler needs to keep code well-formed while
//! it appends instructions and patches jumps.
use crate::chunk::{OpCode, OPCODES};
use crate::program::Constant;
use vstd::prelude::*;

verus! {

/// The length of the instruction that starts with `byte`: the opcode and
/// one operand byte for the instructions that name a constant or a slot, two
/// for the jumps.
pub open spec fn instruction_len(byte: u8) -> int {
    if byte == 0 || (5 <= byte && byte <= 9) {
        2
    } else if 20 <= byte && byte <= 22 {
        3
    } else {
        1
    }
}

/// The length of an instruction is its opcode plus its operands.
pub proof fn lemma_instruction_len(op: OpCode)
    ensures
        instruction_len(op.to_byte()) == 1 + op.operands(),
{
}

/// The two-byte big-endian operand at `at`.
pub open spec fn operand16(code: Seq<u8>, at: int) -> int {
    code[at] as int * 256 + code[at + 1] as int
}

/// `Jump` and `JumpIfFalse` skip forward.
pub open spec fn is_forward_jump(byte: u8) -> bool {
    byte == OpCode::Jump.to_byte() || byte == OpCode::JumpIfFalse.to_byte()
}

/// `Loop` goes back.
pub open spec fn is_backward_jump(byte: u8) -> bool {
    byte == OpCode::Loop.to_byte()
}

/// Where the jump instruction at `at` takes the instruction pointer: the
/// distance is counted from the byte after the operand.
pub open spec fn jump_target(code: Seq<u8>, at: int) -> int {
    if is_backward_jump(code[at]) {
        at + 3 - operand16(code, at + 1)
    } else {
        at + 3 + operand16(code, at + 1)
    }
}

/// The instruction at `at`, if it jumps, lands on the start of an
/// instruction of the code, or just behind its last byte.
pub open spec fn lands(code: Seq<u8>, at: int) -> bool {
    is_forward_jump(code[at]) || is_backward_jump(code[at]) ==> 0 <= jump_target(code, at)
        <= code.len() && reaches(code, 0, jump_target(code, at))
}

/// Decoding instruction by instruction from `at` arrives exactly at `target`.
pub open spec fn reaches(code: Seq<u8>, at: int, target: int) -> bool
    decreases target - at,
{
    if at >= target {
        at == target
    } else {
        &&& 0 <= at < code.len()
        &&& at + instruction_len(code[at]) <= target
        &&& reaches(code, at + instruction_len(code[at]), target)
    }
}

/// From `at` to the end the code is made of whole instructions with valid
/// opcodes, and every jump among them lands inside the code, except those
/// at the offsets in `open`, whose distance is still to be filled in.
pub open spec fn sound_from(code: Seq<u8>, at: int, open: Set<int>) -> bool
    decreases code.len() - at,
{
    if at >= code.len() {
        at == code.len()
    } else {
        &&& 0 <= at
        &&& code[at] < OPCODES
        &&& at + instruction_len(code[at]) <= code.len()
        &&& (open.contains(at) || lands(code, at))
        &&& sound_from(code, at + instruction_len(code[at]), open)
    }
}

/// Finished code: whole instructions only, and every jump lands inside.
pub open spec fn well_formed(code: Seq<u8>) -> bool {
    sound_from(code, 0, Set::empty())
}

/// A forward jump at `at` that waits for its distance.
pub open spec fn awaits_patch(code: Seq<u8>, at: int) -> bool {
    &&& reaches(code, 0, at)
    &&& 0 <= at
    &&& at + 3 <= code.len()
    &&& is_forward_jump(code[at])
}

/// Code under construction: sound except for the jumps in `open`, each of
/// which is a forward jump at an instruction start.
pub open spec fn shaped(code: Seq<u8>, open: Set<int>) -> bool {
    &&& sound_from(code, 0, open)
    &&& forall|o: int| open.contains(o) ==> awaits_patch(code, o)
}

/// One whole instruction.
pub open spec fn is_instruction(ins: Seq<u8>) -> bool {
    &&& ins.len() >= 1
    &&& ins[0] < OPCODES
    &&& ins.len() == instruction_len(ins[0])
}

/// `patched` is `code` with the operand of the jump at `o` replaced.
pub open spec fn differs_in_operand(code: Seq<u8>, patched: Seq<u8>, o: int) -> bool {
    &&& patched.len() == code.len()
    &&& forall|i: int| 0 <= i < code.len() && i != o + 1 && i != o + 2 ==> patched[i] == code[i]
}

pub proof fn lemma_reaches_order(code: Seq<u8>, at: int, target: int)
    requires
        reaches(code, at, target),
    ensures
        at <= target,
    decreases target - at,
{
    if at < target {
        lemma_reaches_order(code, at + instruction_len(code[at]), target);
    }
}

/// Sound code decodes exactly to its end.
pub proof fn lemma_sound_reaches_end(code: Seq<u8>, at: int, open: Set<int>)
    requires
        sound_from(code, at, open),
        at <= code.len(),
    ensures
        reaches(code, at, code.len() as int),
    decreases code.len() - at,
{
    if at < code.len() {
        lemma_sound_reaches_end(code, at + instruction_len(code[at]), open);
    }
}

/// Soundness from a start carries over to every instruction start behind it.
pub proof fn lemma_sound_at(code: Seq<u8>, at: int, target: int, open: Set<int>)
    requires
        sound_from(code, at, open),
        reaches(code, at, target),
    ensures
        sound_from(code, target, open),
    decreases target - at,
{
    if at < target {
        lemma_sound_at(code, at + instruction_len(code[at]), target, open);
    }
}

/// Appending bytes leaves the instruction starts in front of them in place.
pub proof fn lemma_reaches_append(code: Seq<u8>, tail: Seq<u8>, at: int, target: int)
    requires
        reaches(code, at, target),
        target <= code.len(),
    ensures
        reaches(code + tail, at, target),
    decreases target - at,
{
    if at < target {
        assert((code + tail)[at] == code[at]);
        lemma_reaches_append(code, tail, at + instruction_len(code[at]), target);
    }
}

/// Appending one whole instruction to sound code gives sound code, if the
/// new instruction lands or is added to the open jumps.
pub proof fn lemma_sound_append(code: Seq<u8>, ins: Seq<u8>, at: int, open: Set<int>, more: Set<int>)
    requires
        sound_from(code, at, open),
        0 <= at <= code.len(),
        open.subset_of(more),
        is_instruction(ins),
        more.contains(code.len() as int) || lands(code + ins, code.len() as int),
    ensures
        sound_from(code + ins, at, more),
    decreases code.len() - at,
{
    let longer = code + ins;
    if at < code.len() {
        let next = at + instruction_len(code[at]);
        assert(longer[at] == code[at]);
        if instruction_len(code[at]) == 3 {
            assert(longer[at + 1] == code[at + 1]);
            assert(longer[at + 2] == code[at + 2]);
            if !open.contains(at) {
                lemma_reaches_append(code, ins, 0, jump_target(code, at));
            }
        }
        lemma_sound_append(code, ins, next, open, more);
    } else {
        assert(longer[at] == ins[0]);
        assert(sound_from(longer, at + instruction_len(ins[0]), more));
    }
}

/// Appending a whole instruction that lands keeps code under construction
/// in shape.
pub proof fn lemma_shaped_append(code: Seq<u8>, ins: Seq<u8>, open: Set<int>)
    requires
        shaped(code, open),
        is_instruction(ins),
        lands(code + ins, code.len() as int),
    ensures
        shaped(code + ins, open),
        reaches(code + ins, 0, code.len() as int),
{
    lemma_sound_append(code, ins, 0, open, open);
    lemma_sound_reaches_end(code, 0, open);
    lemma_reaches_append(code, ins, 0, code.len() as int);
    assert forall|o: int| open.contains(o) implies awaits_patch(code + ins, o) by {
        lemma_reaches_append(code, ins, 0, o);
        assert((code + ins)[o] == code[o]);
    }
}

/// Appending a forward jump with a placeholder distance opens that jump.
pub proof fn lemma_shaped_open(code: Seq<u8>, ins: Seq<u8>, open: Set<int>)
    requires
        shaped(code, open),
        is_instruction(ins),
        is_forward_jump(ins[0]),
    ensures
        shaped(code + ins, open.insert(code.len() as int)),
{
    let more = open.insert(code.len() as int);
    lemma_sound_append(code, ins, 0, open, more);
    lemma_sound_reaches_end(code, 0, open);
    lemma_reaches_append(code, ins, 0, code.len() as int);
    assert((code + ins)[code.len() as int] == ins[0]);
    assert forall|o: int| more.contains(o) implies awaits_patch(code + ins, o) by {
        if open.contains(o) {
            lemma_reaches_append(code, ins, 0, o);
            assert((code + ins)[o] == code[o]);
        }
    }
}

/// Replacing the operand of a jump moves no instruction start.
pub proof fn lemma_reaches_patch(code: Seq<u8>, patched: Seq<u8>, o: int, at: int, target: int)
    requires
        differs_in_operand(code, patched, o),
        0 <= o,
        o + 3 <= code.len(),
        instruction_len(code[o]) == 3,
        reaches(code, at, target),
        0 <= at,
        (at <= o && reaches(code, at, o)) || at >= o + 3,
    ensures
        reaches(patched, at, target),
    decreases target - at,
{
    if at < target {
        let next = at + instruction_len(code[at]);
        if at < o {
            lemma_reaches_order(code, next, o);
        }
        lemma_reaches_patch(code, patched, o, next, target);
    }
}

/// Filling in the distance of an open jump so that it lands closes it and
/// keeps the rest of the code sound.
pub proof fn lemma_sound_patch(code: Seq<u8>, patched: Seq<u8>, o: int, at: int, open: Set<int>)
    requires
        differs_in_operand(code, patched, o),
        0 <= o,
        o + 3 <= code.len(),
        is_forward_jump(code[o]),
        lands(patched, o),
        reaches(code, 0, o),
        sound_from(code, at, open),
        0 <= at,
        (at <= o && reaches(code, at, o)) || at >= o + 3,
    ensures
        sound_from(patched, at, open.remove(o)),
    decreases code.len() - at,
{
    if at < code.len() {
        let next = at + instruction_len(code[at]);
        if at < o {
            lemma_reaches_order(code, next, o);
        }
        if at != o && !open.contains(at) && instruction_len(code[at]) == 3 {
            lemma_reaches_patch(code, patched, o, 0, jump_target(code, at));
        }
        lemma_sound_patch(code, patched, o, next, open);
    }
}

/// Patching one open jump so that it lands just behind the code keeps code
/// under construction in shape and closes that jump.
pub proof fn lemma_shaped_patch(code: Seq<u8>, patched: Seq<u8>, o: int, open: Set<int>)
    requires
        shaped(code, open),
        awaits_patch(code, o),
        differs_in_operand(code, patched, o),
        jump_target(patched, o) == code.len(),
    ensures
        shaped(patched, open.remove(o)),
        lands(patched, o),
{
    lemma_sound_reaches_end(code, 0, open);
    lemma_reaches_patch(code, patched, o, 0, code.len() as int);
    lemma_sound_patch(code, patched, o, 0, open);
    assert forall|p: int| open.remove(o).contains(p) implies awaits_patch(patched, p) by {
        assert(awaits_patch(code, p));
        lemma_reaches_patch(code, patched, o, 0, p);
        lemma_starts_apart(code, 0, o, p);
    }
}

/// Appending a `Loop` that goes back to an instruction start keeps code
/// under construction in shape.
pub proof fn lemma_shaped_loop(code: Seq<u8>, ins: Seq<u8>, open: Set<int>)
    requires
        shaped(code, open),
        is_instruction(ins),
        is_backward_jump(ins[0]),
        0 <= jump_target(code + ins, code.len() as int) <= code.len(),
        reaches(code, 0, jump_target(code + ins, code.len() as int)),
    ensures
        shaped(code + ins, open),
{
    lemma_reaches_append(code, ins, 0, jump_target(code + ins, code.len() as int));
    assert((code + ins)[code.len() as int] == ins[0]);
    lemma_shaped_append(code, ins, open);
}

/// Code that agrees with other code up to an instruction start has that
/// instruction start too.
pub proof fn lemma_reaches_extends(code: Seq<u8>, longer: Seq<u8>, at: int, target: int)
    requires
        reaches(code, at, target),
        0 <= at,
        target <= code.len() <= longer.len(),
        forall|i: int| 0 <= i < target ==> longer[i] == code[i],
    ensures
        reaches(longer, at, target),
    decreases target - at,
{
    if at < target {
        lemma_reaches_extends(code, longer, at + instruction_len(code[at]), target);
    }
}

/// Two different instruction starts do not fall into each other's operands.
pub proof fn lemma_starts_apart(code: Seq<u8>, at: int, a: int, b: int)
    requires
        reaches(code, at, a),
        reaches(code, at, b),
        0 <= a < code.len(),
        a != b,
    ensures
        b < a || b >= a + instruction_len(code[a]),
    decreases a - at,
{
    lemma_reaches_order(code, at, a);
    lemma_reaches_order(code, at, b);
    if at < a {
        if at < b {
            lemma_starts_apart(code, at + instruction_len(code[at]), a, b);
        }
    } else {
        if at < b {
            lemma_reaches_order(code, at + instruction_len(code[at]), b);
        }
    }
}

/// In finished code, a `Jump` or `JumpIfFalse` at an instruction start `b`
/// with operand `J` points to `b + 3 + J`, and a `Loop` to `b + 3 - J`. The
/// offset that it points to lies within `[0, |code|]` and is the start of an
/// instruction, or the end of the code.
pub proof fn lemma_jumps_land(code: Seq<u8>, b: int)
    requires
        well_formed(code),
        reaches(code, 0, b),
        0 <= b < code.len(),
        is_forward_jump(code[b]) || is_backward_jump(code[b]),
    ensures
        b + 3 <= code.len(),
        is_forward_jump(code[b]) ==> jump_target(code, b) == b + 3 + operand16(code, b + 1),
        is_backward_jump(code[b]) ==> jump_target(code, b) == b + 3 - operand16(code, b + 1),
        0 <= jump_target(code, b) <= code.len(),
        reaches(code, 0, jump_target(code, b)),
{
    lemma_sound_at(code, 0, b, Set::empty());
}

/// In finished code every instruction start holds a valid opcode and the
/// whole instruction lies within the code.
pub proof fn lemma_instructions_whole(code: Seq<u8>, b: int)
    requires
        well_formed(code),
        reaches(code, 0, b),
        0 <= b < code.len(),
    ensures
        code[b] < OPCODES,
        b + instruction_len(code[b]) <= code.len(),
        reaches(code, 0, b + instruction_len(code[b])),
{
    lemma_sound_at(code, 0, b, Set::empty());
    lemma_reaches_step(code, 0, b);
}

/// The start after an instruction start is an instruction start.
pub proof fn lemma_reaches_step(code: Seq<u8>, at: int, b: int)
    requires
        reaches(code, at, b),
        0 <= b < code.len(),
    ensures
        reaches(code, at, b + instruction_len(code[b])),
    decreases b - at,
{
    if at < b {
        lemma_reaches_step(code, at + instruction_len(code[at]), b);
    } else {
        assert(reaches(code, b + instruction_len(code[b]), b + instruction_len(code[b])));
    }
}

// ---------------------------------------------------------------------------
// What code expects of the stack and of the pool.
// ---------------------------------------------------------------------------
/// By how much the instruction that starts with `byte` changes the height of
/// the stack.
pub open spec fn stack_delta(byte: u8) -> int {
    if byte <= 3 || byte == 5 || byte == 7 {
        1
    } else if byte == 4 || byte == 8 || (10 <= byte && byte <= 16) || byte == 19 {
        -1
    } else {
        0
    }
}

/// How many values the instruction that starts with `byte` needs on the
/// stack.
pub open spec fn stack_needs(byte: u8) -> int {
    if 10 <= byte && byte <= 16 {
        2
    } else if byte == 4 || byte == 6 || byte == 8 || byte == 9 || byte == 17 || byte == 18 || byte
        == 19 || byte == 21 {
        1
    } else {
        0
    }
}

/// Whether execution can go on behind the instruction without a jump.
pub open spec fn falls_through(byte: u8) -> bool {
    byte != OpCode::Jump.to_byte() && byte != OpCode::Loop.to_byte() && byte
        != OpCode::Return.to_byte()
}

/// The stack effects are those of the opcodes.
pub proof fn lemma_stack_effects(op: OpCode)
    ensures
        stack_delta(op.to_byte()) == match op {
            OpCode::Constant
            | OpCode::Nil
            | OpCode::True
            | OpCode::False
            | OpCode::GetLocal
            | OpCode::GetGlobal => 1int,
            OpCode::Pop
            | OpCode::DefineGlobal
            | OpCode::Equal
            | OpCode::Greater
            | OpCode::Less
            | OpCode::Add
            | OpCode::Subtract
            | OpCode::Multiple
            | OpCode::Divide
            | OpCode::Print => -1int,
            _ => 0int,
        },
{
}

/// What a piece of code takes for granted of the machine that runs it: how
/// high the stack is in front of every instruction, counted from the height
/// at the first instruction, and which constants of the pool are strings.
pub struct Typing {
    /// The height in front of the instruction at each offset; what stands at
    /// the offset of an operand has no meaning.
    pub at: Seq<int>,
    /// The height behind the code.
    pub here: int,
    /// Whether something leads to the end of the code: the last instruction
    /// falls through, or a jump lands there. If nothing does, `here` can
    /// still be chosen.
    pub pinned: bool,
    /// The offsets where the statements of the top level begin.
    pub marks: Set<int>,
    /// For every constant of the pool, whether it is a string: the
    /// instructions that name a global variable need one.
    pub texts: Seq<bool>,
    /// The constants of the pool as they were written.
    pub pool: Seq<Constant>,
}

impl Typing {
    /// The height in front of offset `b`.
    pub open spec fn of(self, b: int) -> int {
        if 0 <= b < self.at.len() {
            self.at[b]
        } else {
            self.here
        }
    }

    /// No code yet, at height 0.
    pub open spec fn start() -> Typing {
        Typing {
            at: Seq::empty(),
            here: 0,
            pinned: true,
            marks: Set::empty(),
            texts: Seq::empty(),
            pool: Seq::empty(),
        }
    }

    /// The heights after an instruction that begins with `byte` and takes
    /// `len` bytes was appended.
    pub open spec fn after(self, byte: u8, len: int) -> Typing {
        Typing {
            at: self.at + Seq::new(len as nat, |i: int| self.here),
            here: self.here + stack_delta(byte),
            pinned: falls_through(byte),
            marks: self.marks,
            texts: self.texts,
            pool: self.pool,
        }
    }

    /// The heights after a jump that was emitted at height `height` has
    /// landed behind the code.
    pub open spec fn landed(self, height: int) -> Typing {
        Typing { here: height, pinned: true, ..self }
    }
}

/// Whether the operand of a two-byte instruction refers to something that
/// is there when the stack is `height` high: a constant of the pool, for a
/// global variable a constant that is a string, or a slot of the stack.
pub open spec fn operand_fits(byte: u8, operand: u8, texts: Seq<bool>, height: int) -> bool {
    &&& byte == OpCode::Constant.to_byte() ==> operand < texts.len()
    &&& byte == OpCode::GetGlobal.to_byte() || byte == OpCode::DefineGlobal.to_byte() || byte
        == OpCode::SetGlobal.to_byte() ==> operand < texts.len() && texts[operand as int]
    &&& byte == OpCode::GetLocal.to_byte() || byte == OpCode::SetLocal.to_byte() ==> operand
        < height
}

/// From `at` on, every instruction finds what it needs: the values on the
/// stack, and what its operand refers to; and whatever it leads to, by
/// falling through or by jumping, expects the height that the instruction
/// leaves. The jumps in `open` lead nowhere yet.
pub open spec fn typed_from(code: Seq<u8>, at: int, h: Typing, open: Set<int>) -> bool
    decreases code.len() - at,
{
    if at < 0 || at >= code.len() {
        true
    } else {
        let byte = code[at];
        let next = at + instruction_len(byte);
        let left = h.of(at) + stack_delta(byte);
        &&& next <= code.len()
        &&& h.of(at) >= stack_needs(byte)
        &&& instruction_len(byte) == 2 ==> operand_fits(byte, code[at + 1], h.texts, h.of(at))
        &&& falls_through(byte) ==> h.of(next) == left && (next >= code.len() ==> h.pinned)
        &&& is_forward_jump(byte) && !open.contains(at) ==> h.of(jump_target(code, at)) == left && (
        jump_target(code, at) >= code.len() ==> h.pinned)
        &&& is_backward_jump(byte) ==> h.of(jump_target(code, at)) == left && (jump_target(
            code,
            at,
        ) >= code.len() ==> h.pinned)
        &&& typed_from(code, next, h, open)
    }
}

/// The code is in shape and its heights fit.
pub open spec fn typed(code: Seq<u8>, h: Typing, open: Set<int>) -> bool {
    &&& shaped(code, open)
    &&& h.at.len() == code.len()
    &&& h.here >= 0
    &&& typed_from(code, 0, h, open)
    &&& forall|m: int| #[trigger] h.marks.contains(m) ==> 0 <= m <= code.len() && h.of(m) == 0
    &&& forall|m: int, o: int| #[trigger]
        h.marks.contains(m) && #[trigger] open.contains(o) ==> m <= o
}

/// Appending an instruction changes no height in front of it.
pub proof fn lemma_after_of(h: Typing, byte: u8, len: int, b: int)
    requires
        len >= 1,
        0 <= b <= h.at.len(),
    ensures
        h.after(byte, len).of(b) == h.of(b),
        h.after(byte, len).of(h.at.len() + len) == h.here + stack_delta(byte),
        h.after(byte, len).at.len() == h.at.len() + len,
{
    let after = h.after(byte, len);
    if b < h.at.len() {
        assert(after.at[b] == h.at[b]);
    } else {
        assert(after.at[b] == Seq::new(len as nat, |i: int| h.here)[0]);
    }
}

/// Finished code whose heights fit: nothing leads behind its last
/// instruction, and the start of the code and its last instruction are among
/// the places where the stack is as high as at the start.
pub open spec fn balanced(code: Seq<u8>, h: Typing) -> bool {
    &&& typed(code, h, Set::empty())
    &&& !h.pinned
    &&& code.len() > 0
    &&& h.marks.contains(0)
    &&& h.marks.contains(code.len() - 1)
}

/// More constants in the pool take nothing from the code.
pub proof fn lemma_typed_more_texts(
    code: Seq<u8>,
    at: int,
    h: Typing,
    texts: Seq<bool>,
    pool: Seq<Constant>,
    open: Set<int>,
)
    requires
        typed_from(code, at, h, open),
        h.texts.len() <= texts.len(),
        forall|i: int| 0 <= i < h.texts.len() ==> texts[i] == h.texts[i],
    ensures
        typed_from(code, at, Typing { texts, pool, ..h }, open),
    decreases code.len() - at,
{
    if 0 <= at < code.len() {
        lemma_typed_more_texts(code, at + instruction_len(code[at]), h, texts, pool, open);
    }
}

/// Adding constants to the pool keeps the heights fitting.
pub proof fn lemma_typed_pool(
    code: Seq<u8>,
    h: Typing,
    texts: Seq<bool>,
    pool: Seq<Constant>,
    open: Set<int>,
)
    requires
        typed(code, h, open),
        h.texts.len() <= texts.len(),
        forall|i: int| 0 <= i < h.texts.len() ==> texts[i] == h.texts[i],
    ensures
        typed(code, Typing { texts, pool, ..h }, open),
{
    lemma_typed_more_texts(code, 0, h, texts, pool, open);
    let more = Typing { texts, pool, ..h };
    assert forall|m: int| #[trigger] more.marks.contains(m) implies 0 <= m <= code.len()
        && more.of(m) == 0 by {
        assert(h.marks.contains(m));
    }
}

/// Typing fit at every instruction start.
pub proof fn lemma_typed_at(code: Seq<u8>, at: int, target: int, h: Typing, open: Set<int>)
    requires
        typed_from(code, at, h, open),
        reaches(code, at, target),
    ensures
        typed_from(code, target, h, open),
    decreases target - at,
{
    if at < target {
        lemma_typed_at(code, at + instruction_len(code[at]), target, h, open);
    }
}

proof fn lemma_typed_append_from(
    code: Seq<u8>,
    ins: Seq<u8>,
    at: int,
    h: Typing,
    open: Set<int>,
    more: Set<int>,
)
    requires
        sound_from(code, at, open),
        typed_from(code, at, h, open),
        forall|o: int| open.contains(o) ==> 0 <= o < code.len() && is_forward_jump(code[o]),
        h.at.len() == code.len(),
        0 <= at <= code.len(),
        more == open || more == open.insert(code.len() as int),
        is_instruction(ins),
        h.here >= stack_needs(ins[0]),
        ins.len() == 2 ==> operand_fits(ins[0], ins[1], h.texts, h.here),
        is_forward_jump(ins[0]) ==> more.contains(code.len() as int),
        is_backward_jump(ins[0]) ==> 0 <= jump_target(code + ins, code.len() as int) <= code.len()
            && h.of(jump_target(code + ins, code.len() as int)) == h.here,
    ensures
        typed_from(code + ins, at, h.after(ins[0], ins.len() as int), more),
    decreases code.len() - at,
{
    let longer = code + ins;
    let n = ins.len() as int;
    let after = h.after(ins[0], n);
    lemma_after_of(h, ins[0], n, at);
    if at < code.len() {
        let byte = code[at];
        let next = at + instruction_len(byte);
        assert(longer[at] == byte);
        lemma_after_of(h, ins[0], n, next);
        if instruction_len(byte) == 2 {
            assert(longer[at + 1] == code[at + 1]);
        }
        if instruction_len(byte) == 3 {
            assert(longer[at + 1] == code[at + 1]);
            assert(longer[at + 2] == code[at + 2]);
            assert(jump_target(longer, at) == jump_target(code, at));
            if !open.contains(at) {
                assert(lands(code, at));
                lemma_after_of(h, ins[0], n, jump_target(code, at));
            } else {
                assert(is_forward_jump(byte));
                assert(more.contains(at));
            }
        }
        lemma_typed_append_from(code, ins, next, h, open, more);
    } else {
        assert(longer[at] == ins[0]);
        assert(at + instruction_len(ins[0]) == longer.len());
        if ins.len() == 2 {
            assert(longer[at + 1] == ins[1]);
        }
        if is_backward_jump(ins[0]) {
            lemma_after_of(h, ins[0], n, jump_target(longer, at));
        }
        assert(typed_from(longer, at + instruction_len(ins[0]), after, more));
    }
}

/// Appending an instruction at a height that it can work with keeps the
/// heights fitting. A forward jump is added to the open jumps; a `Loop` must
/// go back to an instruction that expects the height at which it is emitted.
pub proof fn lemma_typed_append(code: Seq<u8>, ins: Seq<u8>, h: Typing, open: Set<int>)
    requires
        typed(code, h, open),
        is_instruction(ins),
        h.here >= stack_needs(ins[0]),
        ins.len() == 2 ==> operand_fits(ins[0], ins[1], h.texts, h.here),
        is_backward_jump(ins[0]) ==> 0 <= jump_target(code + ins, code.len() as int) <= code.len()
            && reaches(code, 0, jump_target(code + ins, code.len() as int)) && h.of(
            jump_target(code + ins, code.len() as int),
        ) == h.here,
    ensures
        typed(
            code + ins,
            h.after(ins[0], ins.len() as int),
            if is_forward_jump(ins[0]) {
                open.insert(code.len() as int)
            } else {
                open
            },
        ),
{
    let more = if is_forward_jump(ins[0]) {
        open.insert(code.len() as int)
    } else {
        open
    };
    assert((code + ins)[code.len() as int] == ins[0]);
    if is_forward_jump(ins[0]) {
        lemma_shaped_open(code, ins, open);
    } else if is_backward_jump(ins[0]) {
        lemma_shaped_loop(code, ins, open);
    } else {
        lemma_shaped_append(code, ins, open);
    }
    lemma_typed_append_from(code, ins, 0, h, open, more);
    let after = h.after(ins[0], ins.len() as int);
    lemma_after_of(h, ins[0], ins.len() as int, 0);
    assert forall|m: int| #[trigger] after.marks.contains(m) implies 0 <= m <= (code + ins).len()
        && after.of(m) == 0 by {
        assert(h.marks.contains(m));
        lemma_after_of(h, ins[0], ins.len() as int, m);
    }
}

proof fn lemma_typed_land_from(
    code: Seq<u8>,
    patched: Seq<u8>,
    o: int,
    at: int,
    h: Typing,
    open: Set<int>,
)
    requires
        differs_in_operand(code, patched, o),
        0 <= o,
        o + 3 <= code.len(),
        is_forward_jump(code[o]),
        jump_target(patched, o) == code.len(),
        open.contains(o),
        forall|p: int| open.contains(p) ==> 0 <= p < code.len() && is_forward_jump(code[p]),
        h.at.len() == code.len(),
        h.pinned ==> h.at[o] == h.here,
        sound_from(code, at, open),
        typed_from(code, at, h, open),
        0 <= at,
        (at <= o && reaches(code, at, o)) || at >= o + 3,
    ensures
        typed_from(patched, at, h.landed(h.at[o]), open.remove(o)),
    decreases code.len() - at,
{
    let landed = h.landed(h.at[o]);
    if at < code.len() {
        let next = at + instruction_len(code[at]);
        if at < o {
            lemma_reaches_order(code, next, o);
        }
        assert(patched[at] == code[at]);
        if instruction_len(code[at]) == 2 {
            assert(patched[at + 1] == code[at + 1]);
        }
        if at != o && instruction_len(code[at]) == 3 {
            assert(patched[at + 1] == code[at + 1]);
            assert(patched[at + 2] == code[at + 2]);
            assert(jump_target(patched, at) == jump_target(code, at));
        }
        assert(landed.of(at) == h.of(at));
        assert(next < code.len() || h.pinned ==> landed.of(next) == h.of(next));
        if at != o && instruction_len(code[at]) == 3 {
            if !open.contains(at) {
                assert(lands(code, at));
                let target = jump_target(code, at);
                assert(target < code.len() || h.pinned ==> landed.of(target) == h.of(target));
            } else {
                assert(open.remove(o).contains(at));
            }
        }
        if at == o {
            assert(landed.of(code.len() as int) == h.at[o]);
            assert(stack_delta(code[o]) == 0);
        }
        lemma_typed_land_from(code, patched, o, next, h, open);
    }
}

/// Letting an open jump land behind the code keeps the heights fitting, if
/// the height that the jump carries is the height there, or nothing else
/// leads there yet.
pub proof fn lemma_typed_land(code: Seq<u8>, patched: Seq<u8>, o: int, h: Typing, open: Set<int>)
    requires
        typed(code, h, open),
        open.contains(o),
        differs_in_operand(code, patched, o),
        jump_target(patched, o) == code.len(),
        h.pinned ==> h.at[o] == h.here,
    ensures
        typed(patched, h.landed(h.at[o]), open.remove(o)),
{
    lemma_shaped_patch(code, patched, o, open);
    lemma_typed_land_from(code, patched, o, 0, h, open);
    lemma_typed_at(code, 0, o, h, open);
    let landed = h.landed(h.at[o]);
    assert forall|m: int| #[trigger] landed.marks.contains(m) implies 0 <= m <= patched.len()
        && landed.of(m) == 0 by {
        assert(h.marks.contains(m) && open.contains(o));
        assert(h.of(m) == 0);
    }
}

/// Marking the end of the code, where the height is 0, as the start of a
/// statement.
pub proof fn lemma_typed_mark(code: Seq<u8>, h: Typing, open: Set<int>)
    requires
        typed(code, h, open),
        h.here == 0,
        open == Set::<int>::empty(),
    ensures
        typed(code, Typing { marks: h.marks.insert(code.len() as int), ..h }, open),
{
    let marked = Typing { marks: h.marks.insert(code.len() as int), ..h };
    lemma_typed_marks_from(code, 0, h, marked, open);
}

proof fn lemma_typed_marks_from(code: Seq<u8>, at: int, h: Typing, marked: Typing, open: Set<int>)
    requires
        typed_from(code, at, h, open),
        marked.at == h.at,
        marked.here == h.here,
        marked.pinned == h.pinned,
        marked.texts == h.texts,
    ensures
        typed_from(code, at, marked, open),
    decreases code.len() - at,
{
    if 0 <= at < code.len() {
        lemma_typed_marks_from(code, at + instruction_len(code[at]), h, marked, open);
    }
}

} // verus!
