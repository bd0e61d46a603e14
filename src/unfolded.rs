use vstd::prelude::*;
use crate::interpreter::{RunError, Tape, add_mod, run_loop, run_op, run_ops, then_run};
use crate::parser::{parse_text, scan, step, wrap_i16};
use crate::program::{Op, ParseError};

verus! {

/// Like `step`, but each instruction character becomes an instruction of its own.
pub open spec fn plain_step(open: Seq<Seq<Op>>, c: char) -> Result<Seq<Seq<Op>>, ParseError> {
    let top = open.last();
    let rest = open.drop_last();
    if c == '>' {
        Ok(rest.push(top.push(Op::Move(1))))
    } else if c == '<' {
        Ok(rest.push(top.push(Op::Move(-1))))
    } else if c == '+' {
        Ok(rest.push(top.push(Op::Add(1))))
    } else if c == '-' {
        Ok(rest.push(top.push(Op::Add(-1))))
    } else {
        step(open, c)
    }
}

/// Like `scan`, without merging.
pub open spec fn plain_scan(s: Seq<char>) -> Result<Seq<Seq<Op>>, ParseError>
    decreases s.len(),
{
    if s.len() == 0 {
        Ok(seq![Seq::empty()])
    } else {
        match plain_scan(s.drop_last()) {
            Ok(open) => plain_step(open, s.last()),
            Err(e) => Err(e),
        }
    }
}

/// The program that executes a source text one instruction character at a time: each
/// of `> < + - . ,` becomes one instruction, each bracket pair one loop.
pub open spec fn plain_text(s: Seq<char>) -> Result<Seq<Op>, ParseError> {
    match plain_scan(s) {
        Ok(open) => if open.len() == 1 {
            Ok(open[0])
        } else {
            Err(ParseError::MissingClosingBracket)
        },
        Err(e) => Err(e),
    }
}

/// The run stopped because the cursor would have left the tape.
pub open spec fn off_tape(res: (Result<(), RunError>, Tape)) -> bool {
    res.0 == Err::<(), RunError>(RunError::PointerOutOfBounds)
}

/// The cursor is on the tape.
pub open spec fn on_tape(t: Tape) -> bool {
    0 <= t.ptr < t.mem.len()
}

proof fn lemma_op_on_tape(op: Op, t: Tape, fuel: nat)
    requires
        on_tape(t),
    ensures
        on_tape(run_op(op, t, fuel).1),
    decreases fuel, op, 1nat,
{
    if let Op::Loop(body) = op {
        lemma_loop_on_tape(body, t, fuel);
    }
}

proof fn lemma_loop_on_tape(body: Seq<Op>, t: Tape, fuel: nat)
    requires
        on_tape(t),
    ensures
        on_tape(run_loop(body, t, fuel).1),
    decreases fuel, body, 0nat,
{
    if t.mem[t.ptr] != 0 && fuel > 0 {
        let f1 = (fuel - 1) as nat;
        lemma_ops_on_tape(body, t, f1);
        lemma_loop_on_tape(body, run_ops(body, t, f1).1, f1);
    }
}

proof fn lemma_ops_on_tape(ops: Seq<Op>, t: Tape, fuel: nat)
    requires
        on_tape(t),
    ensures
        on_tape(run_ops(ops, t, fuel).1),
    decreases fuel, ops, 2nat,
{
    if ops.len() > 0 {
        lemma_op_on_tape(ops[0], t, fuel);
        lemma_ops_on_tape(ops.drop_first(), run_op(ops[0], t, fuel).1, fuel);
    }
}

/// Followed by any instructions, `f` runs as `p` does wherever `p` stays on the tape.
pub open spec fn agree(f: Seq<Op>, p: Seq<Op>) -> bool {
    forall|q: Seq<Op>, t: Tape, fuel: nat|
        on_tape(t) && !off_tape(#[trigger] run_ops(p + q, t, fuel)) ==> run_ops(f + q, t, fuel) == run_ops(
            p + q,
            t,
            fuel,
        )
}

proof fn lemma_run_ops_append(a: Seq<Op>, b: Seq<Op>, t: Tape, fuel: nat)
    ensures
        run_ops(a + b, t, fuel) == then_run(run_ops(a, t, fuel), b, fuel),
    decreases a.len(),
{
    if a.len() == 0 {
        assert(a + b =~= b);
    } else {
        assert((a + b)[0] == a[0]);
        assert((a + b).drop_first() =~= a.drop_first() + b);
        let (r, t1) = run_op(a[0], t, fuel);
        lemma_run_ops_append(a.drop_first(), b, t1, fuel);
    }
}

proof fn lemma_agree_push(f: Seq<Op>, p: Seq<Op>, x: Op)
    requires
        agree(f, p),
    ensures
        agree(f.push(x), p.push(x)),
{
    assert forall|q: Seq<Op>, t: Tape, fuel: nat|
        on_tape(t) && !off_tape(#[trigger] run_ops(p.push(x) + q, t, fuel)) implies run_ops(f.push(x) + q, t, fuel)
        == run_ops(p.push(x) + q, t, fuel) by {
        assert(p.push(x) + q =~= p + (seq![x] + q));
        assert(f.push(x) + q =~= f + (seq![x] + q));
        assert(!off_tape(run_ops(p + (seq![x] + q), t, fuel)));
    }
}

/// The sequence of the two instructions `x` and `y`.
pub open spec fn two(x: Op, y: Op) -> Seq<Op> {
    seq![x, y]
}

/// Two instructions `x`, `y` run as the one instruction `z` does, from any state in
/// which the pair stays on the tape.
pub open spec fn pair_runs_as(x: Op, y: Op, z: Op) -> bool {
    forall|t: Tape, fuel: nat|
        on_tape(t) && !off_tape(#[trigger] run_ops(two(x, y), t, fuel)) ==> run_ops(two(x, y), t, fuel)
            == run_ops(seq![z], t, fuel)
}

proof fn lemma_run_single(x: Op, t: Tape, fuel: nat)
    ensures
        run_ops(seq![x], t, fuel) == run_op(x, t, fuel),
{
    assert(seq![x].drop_first() =~= Seq::<Op>::empty());
    assert(seq![x][0] == x);
    let (r, t1) = run_op(x, t, fuel);
    assert(run_ops(Seq::<Op>::empty(), t1, fuel) == (Ok::<(), RunError>(()), t1));
    if r is Ok {
        let u: () = r->Ok_0;
        assert(r == Ok::<(), RunError>(u));
        assert(u == ());
    }
}

proof fn lemma_run_pair(x: Op, y: Op, t: Tape, fuel: nat)
    ensures
        run_ops(seq![x, y], t, fuel) == then_run(run_op(x, t, fuel), seq![y], fuel),
{
    assert(seq![x, y].drop_first() =~= seq![y]);
    assert(seq![x, y][0] == x);
}

proof fn lemma_moves_pair(m: int, d: int)
    ensures
        pair_runs_as(Op::Move(m), Op::Move(d), Op::Move(m + d)),
{
    assert forall|t: Tape, fuel: nat|
        on_tape(t) && !off_tape(#[trigger] run_ops(two(Op::Move(m), Op::Move(d)), t, fuel)) implies run_ops(
        two(Op::Move(m), Op::Move(d)),
        t,
        fuel,
    ) == run_ops(seq![Op::Move(m + d)], t, fuel) by {
        lemma_run_pair(Op::Move(m), Op::Move(d), t, fuel);
        lemma_run_single(Op::Move(m + d), t, fuel);
        let t1 = run_op(Op::Move(m), t, fuel).1;
        lemma_run_single(Op::Move(d), t1, fuel);
    }
}

proof fn lemma_add_mod_twice(c: u8, m: int, d: int)
    ensures
        add_mod(add_mod(c, m), d)
            == add_mod(c, wrap_i16(m + d)),
{
    let x = c as int + m;
    let a = x % 256;
    assert((a + d) % 256 == (x + d) % 256) by {
        vstd::arithmetic::div_mod::lemma_add_mod_noop(x, d, 256);
        vstd::arithmetic::div_mod::lemma_mod_twice(x, 256);
        vstd::arithmetic::div_mod::lemma_add_mod_noop(a, d, 256);
    }
    assert((x + d) % 256 == (c as int + wrap_i16(m + d)) % 256) by {
        vstd::arithmetic::div_mod::lemma_mod_add_multiples_vanish(x + d - 65536, 256);
        vstd::arithmetic::div_mod::lemma_mod_sub_multiples_vanish(x + d + 65536, 256);
        assert(65536 == 256 * 256);
        vstd::arithmetic::div_mod::lemma_mod_multiples_vanish(256, x + d - 65536, 256);
        vstd::arithmetic::div_mod::lemma_mod_multiples_vanish(-256, x + d + 65536, 256);
    }
}

proof fn lemma_adds_pair(m: int, d: int)
    ensures
        pair_runs_as(Op::Add(m), Op::Add(d), Op::Add(wrap_i16(m + d))),
{
    assert forall|t: Tape, fuel: nat|
        on_tape(t) && !off_tape(#[trigger] run_ops(two(Op::Add(m), Op::Add(d)), t, fuel)) implies run_ops(
        two(Op::Add(m), Op::Add(d)),
        t,
        fuel,
    ) == run_ops(seq![Op::Add(wrap_i16(m + d))], t, fuel) by {
        lemma_run_pair(Op::Add(m), Op::Add(d), t, fuel);
        lemma_run_single(Op::Add(wrap_i16(m + d)), t, fuel);
        let t1 = run_op(Op::Add(m), t, fuel).1;
        lemma_run_single(Op::Add(d), t1, fuel);
        lemma_add_mod_twice(t.mem[t.ptr], m, d);
        assert(t1.mem.update(t.ptr, add_mod(t1.mem[t.ptr], d)) =~= t.mem.update(
            t.ptr,
            add_mod(t.mem[t.ptr], wrap_i16(m + d)),
        ));
    }
}

proof fn lemma_agree_merge(f: Seq<Op>, p: Seq<Op>, y: Op, z: Op)
    requires
        agree(f, p),
        f.len() > 0,
        pair_runs_as(f.last(), y, z),
    ensures
        agree(f.drop_last().push(z), p.push(y)),
{
    let a = f.drop_last();
    let x = f.last();
    assert forall|q: Seq<Op>, t: Tape, fuel: nat|
        on_tape(t) && !off_tape(#[trigger] run_ops(p.push(y) + q, t, fuel)) implies run_ops(a.push(z) + q, t, fuel)
        == run_ops(p.push(y) + q, t, fuel) by {
        assert(p.push(y) + q =~= p + (seq![y] + q));
        assert(!off_tape(run_ops(p + (seq![y] + q), t, fuel)));
        assert(f + (seq![y] + q) =~= a + (seq![x, y] + q));
        assert(a.push(z) + q =~= a + (seq![z] + q));
        lemma_run_ops_append(a, seq![x, y] + q, t, fuel);
        lemma_run_ops_append(a, seq![z] + q, t, fuel);
        let (r1, t1) = run_ops(a, t, fuel);
        lemma_ops_on_tape(a, t, fuel);
        if r1 is Ok {
            lemma_run_ops_append(seq![x, y], q, t1, fuel);
            lemma_run_ops_append(seq![z], q, t1, fuel);
            if !off_tape(run_ops(two(x, y), t1, fuel)) {
                assert(run_ops(two(x, y), t1, fuel) == run_ops(seq![z], t1, fuel));
            }
        }
    }
}

proof fn lemma_loop_agree(bf: Seq<Op>, bp: Seq<Op>, t: Tape, fuel: nat)
    requires
        agree(bf, bp),
        on_tape(t),
    ensures
        !off_tape(run_loop(bp, t, fuel)) ==> run_loop(bf, t, fuel) == run_loop(bp, t, fuel),
    decreases fuel,
{
    if t.mem[t.ptr] != 0 && fuel > 0 {
        let f1 = (fuel - 1) as nat;
        assert(bp + Seq::<Op>::empty() =~= bp);
        assert(bf + Seq::<Op>::empty() =~= bf);
        let (r, t1) = run_ops(bp, t, f1);
        if !off_tape(run_ops(bp, t, f1)) {
            assert(run_ops(bf, t, f1) == run_ops(bp, t, f1));
        }
        lemma_ops_on_tape(bp, t, f1);
        lemma_loop_agree(bf, bp, t1, f1);
    }
}

proof fn lemma_agree_push_loop(f: Seq<Op>, p: Seq<Op>, bf: Seq<Op>, bp: Seq<Op>)
    requires
        agree(f, p),
        agree(bf, bp),
    ensures
        agree(f.push(Op::Loop(bf)), p.push(Op::Loop(bp))),
{
    let lp = Op::Loop(bp);
    let lf = Op::Loop(bf);
    assert forall|q: Seq<Op>, t: Tape, fuel: nat|
        on_tape(t) && !off_tape(#[trigger] run_ops(p.push(lp) + q, t, fuel)) implies run_ops(f.push(lf) + q, t, fuel)
        == run_ops(p.push(lp) + q, t, fuel) by {
        assert(p.push(lp) + q =~= p + (seq![lp] + q));
        assert(f.push(lf) + q =~= f + (seq![lf] + q));
        assert(!off_tape(run_ops(p + (seq![lp] + q), t, fuel)));
        lemma_run_ops_append(f, seq![lp] + q, t, fuel);
        lemma_run_ops_append(f, seq![lf] + q, t, fuel);
        let (r1, t1) = run_ops(f, t, fuel);
        lemma_ops_on_tape(f, t, fuel);
        if r1 is Ok {
            lemma_run_ops_append(seq![lp], q, t1, fuel);
            lemma_run_ops_append(seq![lf], q, t1, fuel);
            lemma_run_single(lp, t1, fuel);
            lemma_run_single(lf, t1, fuel);
            lemma_loop_agree(bf, bp, t1, fuel);
        }
    }
}

proof fn lemma_agree_empty()
    ensures
        agree(Seq::<Op>::empty(), Seq::<Op>::empty()),
{
}

/// The open sequences of the merging and of the plain parser agree pairwise.
pub open spec fn stacks_agree(fs: Seq<Seq<Op>>, ps: Seq<Seq<Op>>) -> bool {
    &&& fs.len() == ps.len()
    &&& fs.len() >= 1
    &&& forall|j: int| 0 <= j < fs.len() ==> agree(#[trigger] fs[j], ps[j])
}

proof fn lemma_step_agree(fs: Seq<Seq<Op>>, ps: Seq<Seq<Op>>, c: char)
    requires
        stacks_agree(fs, ps),
    ensures
        step(fs, c) is Ok <==> plain_step(ps, c) is Ok,
        step(fs, c) is Err ==> step(fs, c) == plain_step(ps, c),
        step(fs, c) is Ok ==> stacks_agree(step(fs, c)->Ok_0, plain_step(ps, c)->Ok_0),
{
    let n = fs.len() as int;
    let tf = fs.last();
    let tp = ps.last();
    assert(agree(tf, tp));
    if step(fs, c) is Ok {
        let nf = step(fs, c)->Ok_0;
        let np = plain_step(ps, c)->Ok_0;
        if c == '>' || c == '<' {
            let d: int = if c == '>' { 1 } else { -1 };
            if tf.len() > 0 && tf.last() is Move {
                lemma_moves_pair(tf.last()->Move_0, d);
                lemma_agree_merge(tf, tp, Op::Move(d), Op::Move(tf.last()->Move_0 + d));
            } else {
                lemma_agree_push(tf, tp, Op::Move(d));
            }
            assert(agree(nf[n - 1], np[n - 1]));
        } else if c == '+' || c == '-' {
            let d: int = if c == '+' { 1 } else { -1 };
            if tf.len() > 0 && tf.last() is Add {
                lemma_adds_pair(tf.last()->Add_0, d);
                lemma_agree_merge(tf, tp, Op::Add(d), Op::Add(wrap_i16(tf.last()->Add_0 + d)));
            } else {
                lemma_agree_push(tf, tp, Op::Add(d));
            }
            assert(agree(nf[n - 1], np[n - 1]));
        } else if c == '.' {
            lemma_agree_push(tf, tp, Op::Out);
            assert(agree(nf[n - 1], np[n - 1]));
        } else if c == ',' {
            lemma_agree_push(tf, tp, Op::In);
            assert(agree(nf[n - 1], np[n - 1]));
        } else if c == '[' {
            lemma_agree_empty();
            assert(agree(nf[n], np[n]));
        } else if c == ']' {
            assert(agree(fs[n - 2], ps[n - 2]));
            lemma_agree_push_loop(fs[n - 2], ps[n - 2], tf, tp);
            assert(agree(nf[n - 2], np[n - 2]));
        }
        assert forall|j: int| 0 <= j < nf.len() implies agree(#[trigger] nf[j], np[j]) by {
            if j < n - 2 || (j == n - 2 && c != ']') {
                assert(nf[j] == fs[j] && np[j] == ps[j]);
            }
        }
    }
}

proof fn lemma_scans_agree(s: Seq<char>)
    ensures
        scan(s) is Ok <==> plain_scan(s) is Ok,
        scan(s) is Err ==> scan(s) == plain_scan(s),
        scan(s) is Ok ==> stacks_agree(scan(s)->Ok_0, plain_scan(s)->Ok_0),
    decreases s.len(),
{
    if s.len() == 0 {
        lemma_agree_empty();
        assert(stacks_agree(seq![Seq::<Op>::empty()], seq![Seq::<Op>::empty()]));
    } else {
        lemma_scans_agree(s.drop_last());
        if scan(s.drop_last()) is Ok {
            lemma_step_agree(scan(s.drop_last())->Ok_0, plain_scan(s.drop_last())->Ok_0, s.last());
        }
    }
}

/// Parsing with merging and parsing one instruction per character accept the same
/// texts, and fail the same way. On any tape, with any input and fuel, the parsed
/// program then runs exactly as the one-instruction-per-character program does,
/// wherever the latter keeps its cursor on the tape.
pub proof fn lemma_parsed_runs_as_plain(s: Seq<char>, t: Tape, fuel: nat)
    ensures
        parse_text(s) is Ok <==> plain_text(s) is Ok,
        parse_text(s) is Err ==> parse_text(s) == plain_text(s),
        parse_text(s) is Ok && on_tape(t) && !off_tape(run_ops(plain_text(s)->Ok_0, t, fuel))
            ==> run_ops(parse_text(s)->Ok_0, t, fuel) == run_ops(plain_text(s)->Ok_0, t, fuel),
{
    lemma_scans_agree(s);
    if parse_text(s) is Ok {
        let f = parse_text(s)->Ok_0;
        let p = plain_text(s)->Ok_0;
        assert(agree(scan(s)->Ok_0[0], plain_scan(s)->Ok_0[0]));
        assert(f + Seq::<Op>::empty() =~= f);
        assert(p + Seq::<Op>::empty() =~= p);
    }
}

} // verus!
