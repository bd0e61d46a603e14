use vstd::prelude::*;
use crate::io::{ByteSink, ByteSource, Reader, Writer};
use crate::program::{Op, Program, Token, ops_of, lemma_ops_of_len, lemma_ops_of_index};

verus! {

/// The fuel a run starts with: a loop entered with fuel `f` makes at most `f` passes,
/// and its body runs with one unit less on each pass (see `run_loop`).
pub const ITERATION_LIMIT: u64 = 0xffff_ffff_ffff_ffff;

/// Why a run stopped before the end of the program.
#[derive(Debug, PartialEq, Eq)]
pub enum RunError {
    /// A pointer move would have left the tape.
    PointerOutOfBounds,
    /// A loop ran out of its iteration budget.
    IterationLimit,
}

/// The state of a run: the tape, the cursor, the input still to be read (`None` is a
/// read that found no byte) and the output written so far.
pub struct Tape {
    pub mem: Seq<u8>,
    pub ptr: int,
    pub input: Seq<Option<u8>>,
    pub output: Seq<u8>,
}

/// The cell under the cursor after adding `n` to it, modulo 256.
pub open spec fn add_mod(cell: u8, n: int) -> u8 {
    ((cell as int + n) % 256) as u8
}

/// The byte that a read stores: the next input byte, or the cell unchanged where
/// the input is exhausted or the read found no byte.
pub open spec fn read_cell(cell: u8, input: Seq<Option<u8>>) -> u8 {
    if input.len() > 0 && input[0] is Some {
        input[0]->Some_0
    } else {
        cell
    }
}

/// One instruction, with `fuel` iterations allowed to each loop it enters.
pub open spec fn run_op(op: Op, t: Tape, fuel: nat) -> (Result<(), RunError>, Tape)
    decreases fuel, op, 1nat,
{
    match op {
        Op::Move(n) => if 0 <= t.ptr + n < t.mem.len() {
            (Ok(()), Tape { ptr: t.ptr + n, ..t })
        } else {
            (Err(RunError::PointerOutOfBounds), t)
        },
        Op::Add(n) => (Ok(()), Tape { mem: t.mem.update(t.ptr, add_mod(t.mem[t.ptr], n)), ..t }),
        Op::Out => (Ok(()), Tape { output: t.output.push(t.mem[t.ptr]), ..t }),
        Op::In => (
            Ok(()),
            Tape {
                mem: t.mem.update(t.ptr, read_cell(t.mem[t.ptr], t.input)),
                input: if t.input.len() > 0 { t.input.drop_first() } else { t.input },
                ..t
            },
        ),
        Op::Loop(body) => run_loop(body, t, fuel),
    }
}

/// A loop: while the cell under the cursor is nonzero, the body runs again, each
/// pass with one unit of fuel less.
pub open spec fn run_loop(body: Seq<Op>, t: Tape, fuel: nat) -> (Result<(), RunError>, Tape)
    decreases fuel, body, 0nat,
{
    if t.mem[t.ptr] == 0 {
        (Ok(()), t)
    } else if fuel == 0 {
        (Err(RunError::IterationLimit), t)
    } else {
        let (r, t1) = run_ops(body, t, (fuel - 1) as nat);
        if r is Err {
            (r, t1)
        } else {
            run_loop(body, t1, (fuel - 1) as nat)
        }
    }
}

/// A sequence of instructions, in order, up to the first failure.
pub open spec fn run_ops(ops: Seq<Op>, t: Tape, fuel: nat) -> (Result<(), RunError>, Tape)
    decreases fuel, ops, 2nat,
{
    if ops.len() == 0 {
        (Ok(()), t)
    } else {
        let (r, t1) = run_op(ops[0], t, fuel);
        if r is Err {
            (r, t1)
        } else {
            run_ops(ops.drop_first(), t1, fuel)
        }
    }
}

/// Builds a run state.
pub open spec fn tape(mem: Seq<u8>, ptr: int, input: Seq<Option<u8>>, output: Seq<u8>) -> Tape {
    Tape { mem, ptr, input, output }
}

/// Continues with `ops` after the outcome `res` of one instruction, unless it failed.
pub open spec fn then_run(res: (Result<(), RunError>, Tape), ops: Seq<Op>, fuel: nat) -> (
    Result<(), RunError>,
    Tape,
) {
    if res.0 is Err {
        res
    } else {
        run_ops(ops, res.1, fuel)
    }
}

proof fn lemma_run_ops_unfold(ops: Seq<Op>, i: int, t: Tape, fuel: nat)
    requires
        0 <= i < ops.len(),
    ensures
        run_ops(ops.skip(i), t, fuel) == then_run(run_op(ops[i], t, fuel), ops.skip(i + 1), fuel),
{
    assert(ops.skip(i).drop_first() =~= ops.skip(i + 1));
}

/// Runs `tokens` from the current state. The result holds what `input` handed out,
/// in order, and what `output` has received in all, starting from `out0`.
fn run_tokens<I, O>(
    tokens: &Vec<Token>,
    memory: &mut Vec<u8>,
    pointer: &mut usize,
    input: &mut Reader<I>,
    output: &mut Writer<O>,
    fuel: u64,
    Ghost(out0): Ghost<Seq<u8>>,
) -> (res: (Result<(), RunError>, Ghost<Seq<Option<u8>>>, Ghost<Seq<u8>>)) where
    I: ByteSource,
    O: ByteSink,

    requires
        *old(pointer) < old(memory)@.len(),
        old(output).written() == out0,
    ensures
        final(memory)@.len() == old(memory)@.len(),
        *final(pointer) < final(memory)@.len(),
        final(input).taken() == old(input).taken() + res.1@,
        final(output).written() == res.2@,
        forall|rest: Seq<Option<u8>>|
            run_ops(
                ops_of(tokens@),
                tape(old(memory)@, *old(pointer) as int, res.1@ + rest, out0),
                fuel as nat,
            ) == (res.0, tape(final(memory)@, *final(pointer) as int, rest, res.2@)),
    decreases fuel,
{
    let ghost ops = ops_of(tokens@);
    let ghost mem0 = memory@;
    let ghost ptr0 = *pointer as int;
    let ghost nat_fuel = fuel as nat;
    let mut received: Ghost<Seq<Option<u8>>> = Ghost(Seq::empty());
    let mut out: Ghost<Seq<u8>> = Ghost(out0);
    proof {
        lemma_ops_of_len(tokens@);
        assert forall|rest: Seq<Option<u8>>|
            run_ops(ops, tape(mem0, ptr0, received@ + rest, out0), nat_fuel) == run_ops(
                ops.skip(0),
                tape(memory@, *pointer as int, rest, out@),
                nat_fuel,
            ) by {
            assert(received@ + rest =~= rest);
            assert(ops.skip(0) =~= ops);
        }
    }
    let mut i: usize = 0;
    while i < tokens.len()
        invariant
            ops == ops_of(tokens@),
            ops.len() == tokens@.len(),
            nat_fuel == fuel as nat,
            i <= tokens.len(),
            mem0 == old(memory)@,
            ptr0 == *old(pointer) as int,
            memory@.len() == mem0.len(),
            *pointer < memory@.len(),
            input.taken() == old(input).taken() + received@,
            output.written() == out@,
            forall|rest: Seq<Option<u8>>|
                run_ops(ops, tape(mem0, ptr0, received@ + rest, out0), nat_fuel) == run_ops(
                    ops.skip(i as int),
                    tape(memory@, *pointer as int, rest, out@),
                    nat_fuel,
                ),
        decreases tokens.len() - i,
    {
        let ghost recv_i = received@;
        let ghost mem_i = memory@;
        let ghost ptr_i = *pointer as int;
        let ghost out_i = out@;
        proof {
            lemma_ops_of_index(tokens@, i as int);
            assert forall|rest: Seq<Option<u8>>|
                run_ops(ops, tape(mem0, ptr0, recv_i + rest, out0), nat_fuel) == then_run(
                    run_op(ops[i as int], tape(mem_i, ptr_i, rest, out_i), nat_fuel),
                    ops.skip(i + 1),
                    nat_fuel,
                ) by {
                lemma_run_ops_unfold(ops, i as int, tape(mem_i, ptr_i, rest, out_i), nat_fuel);
            }
        }
        match &tokens[i] {
            Token::PointerShift(shift) => {
                let np: i128 = *pointer as i128 + *shift as i128;
                if np < 0 || np >= memory.len() as i128 {
                    proof {
                        assert forall|rest: Seq<Option<u8>>|
                            run_ops(ops, tape(mem0, ptr0, received@ + rest, out0), nat_fuel) == (
                                Err::<(), RunError>(RunError::PointerOutOfBounds),
                                tape(memory@, *pointer as int, rest, out@),
                            ) by {
                            assert(run_op(ops[i as int], tape(mem_i, ptr_i, rest, out_i), nat_fuel).0 is Err);
                        }
                    }
                    return (Err(RunError::PointerOutOfBounds), received, out);
                }
                *pointer = np as usize;
            },
            Token::ValueShift(shift) => {
                let cell = memory[*pointer];
                let sum: u32 = (cell as i32 + *shift as i32 + 65536) as u32;
                let v = (sum % 256) as u8;
                assert(v == add_mod(cell, *shift as int));
                memory.set(*pointer, v);
            },
            Token::ValueOutput => {
                let b = memory[*pointer];
                output.put(b);
                out = Ghost(out@.push(b));
            },
            Token::ValueInput => {
                let v = input.next_byte();
                match v {
                    Some(b) => {
                        memory.set(*pointer, b);
                    },
                    None => {},
                }
                received = Ghost(received@.push(v));
                proof {
                    assert(input.taken() =~= old(input).taken() + received@);
                    assert forall|rest: Seq<Option<u8>>|
                        run_ops(ops, tape(mem0, ptr0, received@ + rest, out0), nat_fuel)
                            == run_ops(
                            ops.skip(i + 1),
                            tape(memory@, *pointer as int, rest, out@),
                            nat_fuel,
                        ) by {
                        let rest1 = seq![v] + rest;
                        assert(received@ + rest =~= recv_i + rest1);
                        assert(rest1[0] == v);
                        assert(rest1.drop_first() =~= rest);
                        assert(mem_i.update(ptr_i, read_cell(mem_i[ptr_i], rest1)) =~= memory@);
                    }
                }
            },
            Token::Loop(body) => {
                let ghost bops = ops_of(body.0@);
                let mut f: u64 = fuel;
                proof {
                    assert forall|rest: Seq<Option<u8>>|
                        run_ops(ops, tape(mem0, ptr0, received@ + rest, out0), nat_fuel)
                            == then_run(
                            run_loop(bops, tape(memory@, *pointer as int, rest, out@), f as nat),
                            ops.skip(i + 1),
                            nat_fuel,
                        ) by {}
                }
                while memory[*pointer] != 0
                    invariant
                        ops == ops_of(tokens@),
                        ops.len() == tokens@.len(),
                        nat_fuel == fuel as nat,
                        i < tokens.len(),
                        f <= fuel,
                        bops == ops_of(body.0@),
                        mem0 == old(memory)@,
                        ptr0 == *old(pointer) as int,
                        memory@.len() == mem0.len(),
                        *pointer < memory@.len(),
                        input.taken() == old(input).taken() + received@,
                        output.written() == out@,
                        forall|rest: Seq<Option<u8>>|
                            run_ops(ops, tape(mem0, ptr0, received@ + rest, out0), nat_fuel)
                                == then_run(
                                run_loop(bops, tape(memory@, *pointer as int, rest, out@), f as nat),
                                ops.skip(i + 1),
                                nat_fuel,
                            ),
                    decreases f,
                {
                    if f == 0 {
                        return (Err(RunError::IterationLimit), received, out);
                    }
                    let ghost f_l = f as nat;
                    f = f - 1;
                    let ghost recv_l = received@;
                    let ghost mem_l = memory@;
                    let ghost ptr_l = *pointer as int;
                    let ghost out_l = out@;
                    let (r, got, wrote) = run_tokens(&body.0, memory, pointer, input, output, f, out);
                    received = Ghost(received@ + got@);
                    out = wrote;
                    proof {
                        assert(input.taken() =~= old(input).taken() + received@);
                        assert forall|rest: Seq<Option<u8>>|
                            run_ops(ops, tape(mem0, ptr0, received@ + rest, out0), nat_fuel)
                                == then_run(
                                if r is Err {
                                    (r, tape(memory@, *pointer as int, rest, out@))
                                } else {
                                    run_loop(bops, tape(memory@, *pointer as int, rest, out@), f as nat)
                                },
                                ops.skip(i + 1),
                                nat_fuel,
                            ) by {
                            assert(received@ + rest =~= recv_l + (got@ + rest));
                            let tl = tape(mem_l, ptr_l, got@ + rest, out_l);
                            assert(run_ops(bops, tl, f as nat) == (
                                r,
                                tape(memory@, *pointer as int, rest, out@),
                            ));
                            assert(f_l - 1 == f as nat);
                        }
                    }
                    if r.is_err() {
                        return (r, received, out);
                    }
                }
            },
        }
        i = i + 1;
    }
    proof {
        assert forall|rest: Seq<Option<u8>>|
            run_ops(ops, tape(mem0, ptr0, received@ + rest, out0), nat_fuel) == (
                Ok::<(), RunError>(()),
                tape(memory@, *pointer as int, rest, out@),
            ) by {
            assert(ops.skip(i as int).len() == 0);
        }
    }
    (Ok(()), received, out)
}

/// Running `ops` on tape `mem` with the cursor at `ptr`, after output `outs0`, reads
/// exactly the inputs `ins`, whatever input would follow them, ends with `r`, leaves
/// the tape `mem1` with the cursor at `ptr1`, and has written `outs` in all.
pub open spec fn runs_to(
    ops: Seq<Op>,
    mem: Seq<u8>,
    ptr: int,
    ins: Seq<Option<u8>>,
    outs0: Seq<u8>,
    r: Result<(), RunError>,
    mem1: Seq<u8>,
    ptr1: int,
    outs: Seq<u8>,
) -> bool {
    forall|rest: Seq<Option<u8>>|
        run_ops(ops, tape(mem, ptr, ins + rest, outs0), ITERATION_LIMIT as nat) == (
            r,
            tape(mem1, ptr1, rest, outs),
        )
}

impl Program {
    /// Runs the program on `memory`, starting with the cursor at `pointer`. Each
    /// input instruction takes one answer from `input`: `Some(b)` stores `b` under
    /// the cursor, `None` (no byte available) leaves the cell unchanged. Each output
    /// instruction hands the byte under the cursor to `output`. Their logs then hold
    /// exactly the answers read and the bytes written, as the run model gives them. The run stops with an
    /// error when a pointer move would leave the tape, or when a loop exhausts its
    /// iteration budget; the tape keeps what was written up to then.
    pub fn interpret_with_custom_io<I: ByteSource, O: ByteSink>(
        &self,
        memory: &mut Vec<u8>,
        pointer: &mut usize,
        input: &mut Reader<I>,
        output: &mut Writer<O>,
    ) -> (r: Result<(), RunError>)
        requires
            *old(pointer) < old(memory)@.len(),
        ensures
            final(memory)@.len() == old(memory)@.len(),
            *final(pointer) < final(memory)@.len(),
            exists|ins: Seq<Option<u8>>|
                {
                    &&& final(input).taken() == old(input).taken() + ins
                    &&& runs_to(
                        self@,
                        old(memory)@,
                        *old(pointer) as int,
                        ins,
                        old(output).written(),
                        r,
                        final(memory)@,
                        *final(pointer) as int,
                        final(output).written(),
                    )
                },
    {
        let ghost out0 = output.written();
        let (r, ins, outs) = run_tokens(
            &self.0,
            memory,
            pointer,
            input,
            output,
            ITERATION_LIMIT,
            Ghost(out0),
        );
        assert(runs_to(
            self@,
            old(memory)@,
            *old(pointer) as int,
            ins@,
            old(output).written(),
            r,
            memory@,
            *pointer as int,
            output.written(),
        ));
        r
    }
}

} // verus!
