use vstd::prelude::*;
use crate::program::{Op, Program, Token, ops_of, lemma_ops_of_len, lemma_ops_of_index};
use crate::text::{decimal, signed_decimal, push_decimal, push_signed_decimal};

verus! {

pub const MOVE_HEAD: &'static str = "; POINTER SHIFT\nadd X6, X6, #";
pub const MOVE_TAIL: &'static str = "  \n\n";
pub const ADD_HEAD: &'static str = "; VALUE SHIFT\nldrb    W7, [X6]\nadd     W7, W7, #";
pub const ADD_TAIL: &'static str = "\nstrb    W7, [X6] \n\n";
pub const OUTPUT_TEXT: &'static str = "; VALUE OUTPUT\nmov      X1, X6\nsyscall3 SYS_write, STDOUT, X1, 1\n\n";
pub const INPUT_TEXT: &'static str = "; VALUE INPUT\nmov     X1, X6\nsyscall3 SYS_read,  STDIN,  X1, 1\n\n";
pub const LOOP_HEAD: &'static str = "; LOOP\n";
pub const LOOP_TEST: &'static str = ":\nldrb W7, [X6]\ncmp  W7, #0\nb.eq ";
pub const LOOP_BODY: &'static str = "f\n\n";
pub const LOOP_BACK: &'static str = "\nb ";
pub const LOOP_EXIT: &'static str = "b\n";
pub const LOOP_TAIL: &'static str = ":\n\n";
pub const PREAMBLE: &'static str = ".macro syscall1 syscall X0 \n    mov \tX0, \\X0\n    mov \tX16, \\syscall\n    svc \t#0x80\n.endm\n\n.macro syscall3 syscall X0 X1 X2\n    mov \tX0, \\X0\n    mov \tX1, \\X1\n    mov \tX2, \\X2\n    mov \tX16, \\syscall\n    svc \t#0x80 \n.endm\n\n.set SYS_return, \t1\n.set SYS_read,  \t3\n.set SYS_write, \t4\n\n.set STDIN,\t\t\t0\n.set STDOUT,\t\t0\n\n.bss\n    .lcomm memory, ";
pub const ENTRY: &'static str = "\n\n.text\n.align 2\n.global _start\n_start:\nadrp    X6, memory@PAGE\nadd     X6,\tX6,\tmemory@PAGEOFF\n\n; Program:\n\n";
pub const EPILOGUE: &'static str = "\nsyscall1 SYS_return, #0\n";

/// The label at the top of a loop at nesting depth `depth`.
pub open spec fn top_label(depth: nat) -> nat {
    2 * depth + 1
}

/// The label after a loop at nesting depth `depth`.
pub open spec fn exit_label(depth: nat) -> nat {
    2 * depth + 2
}

/// The assembly text of one instruction at loop nesting depth `depth`.
pub open spec fn op_asm(op: Op, depth: nat) -> Seq<char>
    decreases op, 0nat,
{
    match op {
        Op::Move(n) => MOVE_HEAD@ + signed_decimal(n) + MOVE_TAIL@,
        Op::Add(n) => ADD_HEAD@ + signed_decimal(n) + ADD_TAIL@,
        Op::Out => OUTPUT_TEXT@,
        Op::In => INPUT_TEXT@,
        Op::Loop(body) => LOOP_HEAD@ + decimal(top_label(depth)) + LOOP_TEST@ + decimal(
            exit_label(depth),
        ) + LOOP_BODY@ + ops_asm(body, depth + 1) + LOOP_BACK@ + decimal(top_label(depth))
            + LOOP_EXIT@ + decimal(exit_label(depth)) + LOOP_TAIL@,
    }
}

/// The assembly text of a sequence of instructions: their texts, in order.
pub open spec fn ops_asm(ops: Seq<Op>, depth: nat) -> Seq<char>
    decreases ops, 1nat,
{
    if ops.len() == 0 {
        Seq::empty()
    } else {
        ops_asm(ops.drop_last(), depth) + op_asm(ops.last(), depth)
    }
}

/// How many loops deep the instruction nests.
pub open spec fn op_nesting(op: Op) -> nat
    decreases op, 0nat,
{
    match op {
        Op::Loop(body) => 1 + ops_nesting(body),
        _ => 0,
    }
}

/// How many loops deep the deepest instruction of `ops` nests.
pub open spec fn ops_nesting(ops: Seq<Op>) -> nat
    decreases ops, 1nat,
{
    if ops.len() == 0 {
        0
    } else {
        let a = ops_nesting(ops.drop_last());
        let b = op_nesting(ops.last());
        if a >= b {
            a
        } else {
            b
        }
    }
}

/// The assembly program for `ops` on a tape of `tape_size` cells.
pub open spec fn program_asm(ops: Seq<Op>, tape_size: nat) -> Seq<char> {
    PREAMBLE@ + decimal(tape_size) + ENTRY@ + ops_asm(ops, 0) + EPILOGUE@
}

proof fn lemma_ops_nesting_index(ops: Seq<Op>, i: int)
    requires
        0 <= i < ops.len(),
    ensures
        op_nesting(ops[i]) <= ops_nesting(ops),
    decreases ops.len(),
{
    if i < ops.len() - 1 {
        lemma_ops_nesting_index(ops.drop_last(), i);
    }
}

proof fn lemma_ops_asm_prefix(ops: Seq<Op>, i: int, depth: nat)
    requires
        0 <= i < ops.len(),
    ensures
        ops_asm(ops.take(i + 1), depth) == ops_asm(ops.take(i), depth) + op_asm(ops[i], depth),
{
    assert(ops.take(i + 1).drop_last() =~= ops.take(i));
}

/// Appends the text of `t` at nesting depth `depth`.
fn write_token(t: &Token, out: &mut String, depth: usize)
    requires
        depth + op_nesting(t@) <= usize::MAX / 2,
    ensures
        final(out)@ == old(out)@ + op_asm(t@, depth as nat),
    decreases t, 0nat,
{
    match t {
        Token::PointerShift(n) => {
            out.append(MOVE_HEAD);
            push_signed_decimal(out, *n as i128);
            out.append(MOVE_TAIL);
        },
        Token::ValueShift(n) => {
            out.append(ADD_HEAD);
            push_signed_decimal(out, *n as i128);
            out.append(ADD_TAIL);
        },
        Token::ValueOutput => {
            out.append(OUTPUT_TEXT);
        },
        Token::ValueInput => {
            out.append(INPUT_TEXT);
        },
        Token::Loop(body) => {
            let top = (depth * 2 + 1) as u128;
            let exit = (depth * 2 + 2) as u128;
            out.append(LOOP_HEAD);
            push_decimal(out, top);
            out.append(LOOP_TEST);
            push_decimal(out, exit);
            out.append(LOOP_BODY);
            write_tokens(&body.0, out, depth + 1);
            out.append(LOOP_BACK);
            push_decimal(out, top);
            out.append(LOOP_EXIT);
            push_decimal(out, exit);
            out.append(LOOP_TAIL);
        },
    }
    assert(final(out)@ =~= old(out)@ + op_asm(t@, depth as nat));
}

/// Appends the texts of `tokens`, in order, at nesting depth `depth`.
fn write_tokens(tokens: &Vec<Token>, out: &mut String, depth: usize)
    requires
        depth + ops_nesting(ops_of(tokens@)) <= usize::MAX / 2,
    ensures
        final(out)@ == old(out)@ + ops_asm(ops_of(tokens@), depth as nat),
    decreases tokens, 1nat,
{
    let ghost ops = ops_of(tokens@);
    proof {
        lemma_ops_of_len(tokens@);
        assert(ops.take(0) =~= Seq::<Op>::empty());
    }
    let mut i: usize = 0;
    while i < tokens.len()
        invariant
            ops == ops_of(tokens@),
            ops.len() == tokens@.len(),
            i <= tokens.len(),
            depth + ops_nesting(ops) <= usize::MAX / 2,
            out@ == old(out)@ + ops_asm(ops.take(i as int), depth as nat),
        decreases tokens.len() - i,
    {
        proof {
            lemma_ops_of_index(tokens@, i as int);
            lemma_ops_nesting_index(ops, i as int);
            lemma_ops_asm_prefix(ops, i as int, depth as nat);
            assert(decreases_to!(tokens => tokens@[i as int]));
        }
        write_token(&tokens[i], out, depth);
        i = i + 1;
        assert(out@ =~= old(out)@ + ops_asm(ops.take(i as int), depth as nat));
    }
    assert(ops.take(i as int) =~= ops);
}

impl Token {
    /// The assembly text of this instruction when it stands `depth` loops deep.
    pub fn to_assembly(&self, depth: usize) -> (r: String)
        requires
            depth + op_nesting(self@) <= usize::MAX / 2,
        ensures
            r@ == op_asm(self@, depth as nat),
    {
        let mut out = String::new();
        write_token(self, &mut out, depth);
        assert(out@ =~= op_asm(self@, depth as nat));
        out
    }
}

impl Program {
    /// The complete assembly program: a fixed preamble that reserves `memory_size`
    /// bytes of tape, the text of each instruction, and a fixed exit sequence.
    pub fn compile_to_assembly(&self, memory_size: usize) -> (r: String)
        requires
            ops_nesting(self@) <= usize::MAX / 2,
        ensures
            r@ == program_asm(self@, memory_size as nat),
    {
        let mut out = String::new();
        out.append(PREAMBLE);
        push_decimal(&mut out, memory_size as u128);
        out.append(ENTRY);
        write_tokens(&self.0, &mut out, 0);
        out.append(EPILOGUE);
        assert(out@ =~= program_asm(self@, memory_size as nat));
        out
    }
}

/// The nesting depth of each loop of `op`, in the order in which their texts begin,
/// when `op` stands `depth` loops deep.
pub open spec fn op_loop_depths(op: Op, depth: nat) -> Seq<nat>
    decreases op, 0nat,
{
    match op {
        Op::Loop(body) => seq![depth] + ops_loop_depths(body, depth + 1),
        _ => Seq::empty(),
    }
}

/// The nesting depth of each loop of `ops`, in the order in which their texts begin.
pub open spec fn ops_loop_depths(ops: Seq<Op>, depth: nat) -> Seq<nat>
    decreases ops, 1nat,
{
    if ops.len() == 0 {
        Seq::empty()
    } else {
        ops_loop_depths(ops.drop_last(), depth) + op_loop_depths(ops.last(), depth)
    }
}

/// The labels that loops at the given depths define: for each, its top label and
/// then its exit label.
pub open spec fn labels_of(depths: Seq<nat>) -> Seq<nat> {
    Seq::new(
        2 * depths.len(),
        |k: int|
            if k % 2 == 0 {
                top_label(depths[k / 2])
            } else {
                exit_label(depths[k / 2])
            },
    )
}

proof fn lemma_loop_depths_at_least(ops: Seq<Op>, depth: nat)
    ensures
        forall|i: int|
            0 <= i < ops_loop_depths(ops, depth).len() ==> #[trigger] ops_loop_depths(
                ops,
                depth,
            )[i] >= depth,
    decreases ops, 1nat,
{
    if ops.len() > 0 {
        let a = ops_loop_depths(ops.drop_last(), depth);
        let b = op_loop_depths(ops.last(), depth);
        lemma_loop_depths_at_least(ops.drop_last(), depth);
        lemma_op_loop_depths_at_least(ops.last(), depth);
        assert forall|i: int| 0 <= i < (a + b).len() implies #[trigger] (a + b)[i] >= depth by {
            if i >= a.len() {
                assert((a + b)[i] == b[i - a.len()]);
            }
        }
    }
}

proof fn lemma_op_loop_depths_at_least(op: Op, depth: nat)
    ensures
        forall|i: int|
            0 <= i < op_loop_depths(op, depth).len() ==> #[trigger] op_loop_depths(op, depth)[i]
                >= depth,
    decreases op, 0nat,
{
    if let Op::Loop(body) = op {
        let b = ops_loop_depths(body, depth + 1);
        lemma_loop_depths_at_least(body, depth + 1);
        assert forall|i: int| 0 <= i < (seq![depth] + b).len() implies #[trigger] (seq![depth]
            + b)[i] >= depth by {
            if i >= 1 {
                assert((seq![depth] + b)[i] == b[i - 1]);
            }
        }
    }
}

/// Loop labels in the generated text: every loop of `ops` at nesting depth `depth`
/// or deeper defines labels above `2 * depth`, so no label of a loop is defined again
/// inside its body. Two labels of loops coincide only where the loops stand at the
/// same depth, and a loop's two labels differ; so where no two loops share a depth,
/// the program defines twice as many distinct labels as it has loops.
pub proof fn lemma_loop_labels(ops: Seq<Op>, depth: nat)
    ensures
        forall|k: int|
            0 <= k < labels_of(ops_loop_depths(ops, depth)).len() ==> #[trigger] labels_of(
                ops_loop_depths(ops, depth),
            )[k] > 2 * depth,
        forall|k1: int, k2: int|
            0 <= k1 < labels_of(ops_loop_depths(ops, depth)).len() && 0 <= k2 < labels_of(
                ops_loop_depths(ops, depth),
            ).len() && k1 != k2 && #[trigger] labels_of(ops_loop_depths(ops, depth))[k1]
                == #[trigger] labels_of(ops_loop_depths(ops, depth))[k2] ==> k1 / 2 != k2 / 2
                && ops_loop_depths(ops, depth)[k1 / 2] == ops_loop_depths(ops, depth)[k2 / 2],
        ops_loop_depths(ops, depth).no_duplicates() ==> labels_of(
            ops_loop_depths(ops, depth),
        ).no_duplicates() && labels_of(ops_loop_depths(ops, depth)).len() == 2
            * ops_loop_depths(ops, depth).len(),
{
    let ds = ops_loop_depths(ops, depth);
    let ls = labels_of(ds);
    lemma_loop_depths_at_least(ops, depth);
    assert forall|k: int| 0 <= k < ls.len() implies #[trigger] ls[k] > 2 * depth by {
        assert(ds[k / 2] >= depth);
    }
    assert forall|k1: int, k2: int|
        0 <= k1 < ls.len() && 0 <= k2 < ls.len() && k1 != k2 && #[trigger] ls[k1]
            == #[trigger] ls[k2] implies k1 / 2 != k2 / 2 && ds[k1 / 2] == ds[k2 / 2] by {
        assert(k1 == 2 * (k1 / 2) + k1 % 2);
        assert(k2 == 2 * (k2 / 2) + k2 % 2);
    }
}

} // verus!
