use vstd::prelude::*;
use crate::parser::{bracket_balance, fold_add, fold_move, is_instruction_char, parse_text, scan, step, wrap_i16};
use crate::codegen::{op_nesting, ops_nesting};
use crate::program::{Op, ParseError};

verus! {

/// Some prefix of `s` closes more loops than it opens.
pub open spec fn has_unmatched_close(s: Seq<char>) -> bool {
    exists|k: int| 0 <= k <= s.len() && #[trigger] bracket_balance(s.take(k)) < 0
}

proof fn lemma_scan_balance(s: Seq<char>)
    ensures
        scan(s) is Ok <==> !has_unmatched_close(s),
        scan(s) is Err ==> scan(s) == Err::<Seq<Seq<Op>>, ParseError>(
            ParseError::MissingOpeningBracket,
        ),
        scan(s) is Ok ==> scan(s)->Ok_0.len() == bracket_balance(s) + 1,
    decreases s.len(),
{
    if s.len() == 0 {
        assert forall|k: int| 0 <= k <= s.len() implies #[trigger] bracket_balance(s.take(k)) >= 0 by {
            assert(s.take(k).len() == 0);
        }
    } else {
        let p = s.drop_last();
        let c = s.last();
        lemma_scan_balance(p);
        assert forall|k: int| 0 <= k < s.len() implies #[trigger] s.take(k) == p.take(k) by {
            assert(s.take(k) =~= p.take(k));
        }
        assert(s.take(s.len() as int) =~= s);
        assert(p.take(p.len() as int) =~= p);
        if scan(p) is Err {
            let k = choose|k: int| 0 <= k <= p.len() && #[trigger] bracket_balance(p.take(k)) < 0;
            assert(bracket_balance(s.take(k)) < 0);
        } else {
            let open = scan(p)->Ok_0;
            assert(bracket_balance(p.take(p.len() as int)) >= 0);
            if c == ']' && open.len() <= 1 {
                assert(bracket_balance(s.take(s.len() as int)) < 0);
            } else {
                assert forall|k: int| 0 <= k <= s.len() implies #[trigger] bracket_balance(s.take(k)) >= 0 by {
                    if k < s.len() {
                        assert(bracket_balance(p.take(k)) >= 0);
                    }
                }
            }
        }
    }
}

/// A text parses exactly when its brackets balance: no prefix closes more loops than
/// it opens, and the whole text closes as many as it opens. A surplus closing bracket
/// anywhere gives `MissingOpeningBracket`; otherwise a surplus opening bracket gives
/// `MissingClosingBracket`.
pub proof fn lemma_parse_brackets(s: Seq<char>)
    ensures
        parse_text(s) == Err::<Seq<Op>, ParseError>(ParseError::MissingOpeningBracket)
            <==> has_unmatched_close(s),
        parse_text(s) == Err::<Seq<Op>, ParseError>(ParseError::MissingClosingBracket)
            <==> !has_unmatched_close(s) && bracket_balance(s) > 0,
        parse_text(s) is Ok <==> !has_unmatched_close(s) && bracket_balance(s) == 0,
{
    lemma_scan_balance(s);
    assert(s.take(s.len() as int) =~= s);
}

/// Both instructions move the pointer, or both change a value.
pub open spec fn same_shift_kind(a: Op, b: Op) -> bool {
    (a is Move && b is Move) || (a is Add && b is Add)
}

/// No two adjacent instructions of `ops`, nor of any loop body inside it, are both
/// pointer moves or both value changes.
pub open spec fn folded(ops: Seq<Op>) -> bool
    decreases ops, 1nat,
{
    if ops.len() == 0 {
        true
    } else {
        &&& folded(ops.drop_last())
        &&& op_folded(ops.last())
        &&& ops.len() >= 2 ==> !same_shift_kind(ops[ops.len() - 2], ops.last())
    }
}

/// A loop's body is folded; other instructions are folded trivially.
pub open spec fn op_folded(op: Op) -> bool
    decreases op, 0nat,
{
    match op {
        Op::Loop(body) => folded(body),
        _ => true,
    }
}

proof fn lemma_folded_push(ops: Seq<Op>, x: Op)
    ensures
        folded(ops.push(x)) == (folded(ops) && op_folded(x) && (ops.len() >= 1
            ==> !same_shift_kind(ops.last(), x))),
{
    assert(ops.push(x).drop_last() =~= ops);
}

proof fn lemma_step_folded(open: Seq<Seq<Op>>, c: char)
    requires
        open.len() >= 1,
        forall|j: int| 0 <= j < open.len() ==> folded(#[trigger] open[j]),
    ensures
        step(open, c) is Ok ==> forall|j: int|
            0 <= j < step(open, c)->Ok_0.len() ==> folded(#[trigger] step(open, c)->Ok_0[j]),
{
    let top = open.last();
    let rest = open.drop_last();
    assert(folded(top));
    if top.len() > 0 {
        assert(top.drop_last().push(top.last()) =~= top);
        lemma_folded_push(top.drop_last(), top.last());
    }
    lemma_folded_push(top, Op::Out);
    lemma_folded_push(top, Op::In);
    lemma_folded_push(top, Op::Move(1));
    lemma_folded_push(top, Op::Move(-1));
    lemma_folded_push(top, Op::Add(1));
    lemma_folded_push(top, Op::Add(-1));
    if top.len() > 0 {
        if top.last() is Move {
            lemma_folded_push(top.drop_last(), Op::Move(top.last()->Move_0 + 1));
            lemma_folded_push(top.drop_last(), Op::Move(top.last()->Move_0 - 1));
        }
        if top.last() is Add {
            lemma_folded_push(top.drop_last(), Op::Add(wrap_i16(top.last()->Add_0 + 1)));
            lemma_folded_push(top.drop_last(), Op::Add(wrap_i16(top.last()->Add_0 - 1)));
        }
    }
    if c == ']' && open.len() > 1 {
        assert(folded(rest.last()));
        lemma_folded_push(rest.last(), Op::Loop(top));
    }
    assert(folded(Seq::<Op>::empty()));
    if step(open, c) is Ok {
        let next = step(open, c)->Ok_0;
        assert forall|j: int| 0 <= j < next.len() implies folded(#[trigger] next[j]) by {
            if j < open.len() - 1 {
                assert(next[j] == open[j] || (c == ']' && j == open.len() - 2));
            }
        }
    }
}

proof fn lemma_scan_folded(s: Seq<char>)
    ensures
        scan(s) is Ok ==> scan(s)->Ok_0.len() >= 1 && forall|j: int|
            0 <= j < scan(s)->Ok_0.len() ==> folded(#[trigger] scan(s)->Ok_0[j]),
    decreases s.len(),
{
    if s.len() == 0 {
        assert(folded(Seq::<Op>::empty()));
    } else {
        lemma_scan_folded(s.drop_last());
        lemma_scan_balance(s.drop_last());
        if scan(s.drop_last()) is Ok {
            lemma_step_folded(scan(s.drop_last())->Ok_0, s.last());
            let open = scan(s.drop_last())->Ok_0;
            if step(open, s.last()) is Ok {
                assert(step(open, s.last())->Ok_0.len() >= 1);
            }
        }
    }
}

/// Parsing merges every run of adjacent pointer moves, and every run of adjacent value
/// changes, into one instruction, at every loop depth.
pub proof fn lemma_parse_folded(s: Seq<char>)
    ensures
        parse_text(s) is Ok ==> folded(parse_text(s)->Ok_0),
{
    lemma_scan_folded(s);
}

/// Two pointer moves of the same direction parse to one move by two cells.
pub proof fn lemma_double_move_folds(c: char)
    requires
        c == '>' || c == '<',
    ensures
        parse_text(seq![c, c]) == Ok::<Seq<Op>, ParseError>(
            seq![Op::Move(if c == '>' { 2 } else { -2 })],
        ),
{
    let s = seq![c, c];
    let d: int = if c == '>' { 1 } else { -1 };
    let e = Seq::<Op>::empty();
    assert(s.drop_last() =~= seq![c]);
    assert(seq![c].drop_last() =~= Seq::<char>::empty());
    assert(scan(Seq::<char>::empty()) == Ok::<Seq<Seq<Op>>, ParseError>(seq![e]));
    assert(seq![e].drop_last() =~= Seq::<Seq<Op>>::empty());
    assert(fold_move(e, d) =~= seq![Op::Move(d)]);
    let one = seq![seq![Op::Move(d)]];
    assert(Seq::<Seq<Op>>::empty().push(seq![Op::Move(d)]) =~= one);
    assert(scan(seq![c]) == Ok::<Seq<Seq<Op>>, ParseError>(one));
    assert(one.drop_last() =~= Seq::<Seq<Op>>::empty());
    assert(seq![Op::Move(d)].drop_last() =~= e);
    assert(fold_move(seq![Op::Move(d)], d) =~= seq![Op::Move(2 * d)]);
    assert(Seq::<Seq<Op>>::empty().push(seq![Op::Move(2 * d)]) =~= seq![seq![Op::Move(2 * d)]]);
}

proof fn lemma_nesting_push(ops: Seq<Op>, x: Op)
    ensures
        ops_nesting(ops.push(x)) == if ops_nesting(ops) >= op_nesting(x) {
            ops_nesting(ops)
        } else {
            op_nesting(x)
        },
{
    assert(ops.push(x).drop_last() =~= ops);
}

/// Sequence `j` of `open` (of `open.len()` sequences under construction) nests no
/// deeper than `bound` minus the number of loops still open around it.
pub open spec fn nesting_within(open: Seq<Seq<Op>>, bound: int) -> bool {
    forall|j: int|
        0 <= j < open.len() ==> ops_nesting(#[trigger] open[j]) + (open.len() - 1 - j) <= bound
}

proof fn lemma_scan_nesting(s: Seq<char>)
    ensures
        scan(s) is Ok ==> nesting_within(scan(s)->Ok_0, s.len() as int),
    decreases s.len(),
{
    if s.len() > 0 {
        let p = s.drop_last();
        let c = s.last();
        lemma_scan_nesting(p);
        lemma_scan_folded(p);
        if scan(p) is Ok && step(scan(p)->Ok_0, c) is Ok {
            let open = scan(p)->Ok_0;
            let next = step(open, c)->Ok_0;
            let top = open.last();
            let n = s.len() as int;
            assert(ops_nesting(top) <= n - 1);
            if top.len() > 0 {
                assert(top.drop_last().push(top.last()) =~= top);
                lemma_nesting_push(top.drop_last(), top.last());
                lemma_nesting_push(top.drop_last(), Op::Move(top.last()->Move_0 + 1));
                lemma_nesting_push(top.drop_last(), Op::Move(top.last()->Move_0 - 1));
                lemma_nesting_push(
                    top.drop_last(),
                    Op::Add(wrap_i16(top.last()->Add_0 + 1)),
                );
                lemma_nesting_push(
                    top.drop_last(),
                    Op::Add(wrap_i16(top.last()->Add_0 - 1)),
                );
            }
            lemma_nesting_push(top, Op::Out);
            lemma_nesting_push(top, Op::In);
            lemma_nesting_push(top, Op::Move(1));
            lemma_nesting_push(top, Op::Move(-1));
            lemma_nesting_push(top, Op::Add(1));
            lemma_nesting_push(top, Op::Add(-1));
            if c == ']' {
                let rest = open.drop_last();
                assert(ops_nesting(open[open.len() - 2]) + 1 <= n - 1);
                lemma_nesting_push(rest.last(), Op::Loop(top));
            }
            assert forall|j: int|
                0 <= j < next.len() implies ops_nesting(#[trigger] next[j]) + (next.len() - 1 - j)
                <= n by {
                if j < open.len() - 1 {
                    assert(ops_nesting(open[j]) + (open.len() - 1 - j) <= n - 1);
                }
            }
        }
    }
}

/// A parsed program nests its loops no deeper than its source text is long.
pub proof fn lemma_parse_nesting(s: Seq<char>)
    ensures
        parse_text(s) is Ok ==> ops_nesting(parse_text(s)->Ok_0) <= s.len(),
{
    lemma_scan_nesting(s);
    if parse_text(s) is Ok {
        assert(ops_nesting(scan(s)->Ok_0[0]) + 0 <= s.len());
    }
}

/// How many times `c` occurs in `s`.
pub open spec fn count_char(s: Seq<char>, c: char) -> nat
    decreases s.len(),
{
    if s.len() == 0 {
        0
    } else {
        count_char(s.drop_last(), c) + if s.last() == c {
            1nat
        } else {
            0nat
        }
    }
}

/// Every character of `s` is `c` or a comment character.
pub open spec fn only_char_and_comments(s: Seq<char>, c: char) -> bool {
    forall|i: int| 0 <= i < s.len() ==> #[trigger] s[i] == c || !is_instruction_char(s[i])
}

/// The one instruction that `k` copies of the shift character `c` fold into.
pub open spec fn folded_run(c: char, k: int) -> Op {
    if c == '>' {
        Op::Move(k)
    } else if c == '<' {
        Op::Move(-k)
    } else if c == '+' {
        Op::Add(k)
    } else {
        Op::Add(-k)
    }
}

/// `c` is one of the four shift characters.
pub open spec fn is_shift_char(c: char) -> bool {
    c == '>' || c == '<' || c == '+' || c == '-'
}

proof fn lemma_scan_run(s: Seq<char>, c: char)
    requires
        is_shift_char(c),
        only_char_and_comments(s, c),
        (c == '+' || c == '-') ==> count_char(s, c) <= 32767,
    ensures
        scan(s) == Ok::<Seq<Seq<Op>>, ParseError>(
            seq![
                if count_char(s, c) == 0 {
                    Seq::<Op>::empty()
                } else {
                    seq![folded_run(c, count_char(s, c) as int)]
                },
            ],
        ),
    decreases s.len(),
{
    if s.len() > 0 {
        let p = s.drop_last();
        let x = s.last();
        assert(only_char_and_comments(p, c)) by {
            assert forall|i: int| 0 <= i < p.len() implies #[trigger] p[i] == c
                || !is_instruction_char(p[i]) by {
                assert(p[i] == s[i]);
            }
        }
        assert(x == s[s.len() - 1]);
        lemma_scan_run(p, c);
        let k = count_char(p, c) as int;
        let top = if k == 0 {
            Seq::<Op>::empty()
        } else {
            seq![folded_run(c, k)]
        };
        assert(seq![top].drop_last() =~= Seq::<Seq<Op>>::empty());
        if x == c {
            let d: int = if c == '>' || c == '+' { 1 } else { -1 };
            if k > 0 {
                assert(top.drop_last() =~= Seq::<Op>::empty());
            }
            assert(fold_move(top, d) =~= seq![folded_run(c, k + 1)] || !(c == '>' || c == '<'));
            assert(fold_add(top, d) =~= seq![folded_run(c, k + 1)] || !(c == '+' || c == '-'));
            assert(Seq::<Seq<Op>>::empty().push(seq![folded_run(c, k + 1)]) =~= seq![
                seq![folded_run(c, k + 1)],
            ]);
        }
    }
}

/// A run of `k >= 1` copies of one shift character, with any comment characters
/// between them, parses to one instruction that moves or changes by `k` (within
/// the 16-bit range of a value change).
pub proof fn lemma_run_folds(s: Seq<char>, c: char)
    requires
        is_shift_char(c),
        only_char_and_comments(s, c),
        count_char(s, c) >= 1,
        (c == '+' || c == '-') ==> count_char(s, c) <= 32767,
    ensures
        parse_text(s) == Ok::<Seq<Op>, ParseError>(seq![folded_run(c, count_char(s, c) as int)]),
{
    lemma_scan_run(s, c);
}

} // verus!
