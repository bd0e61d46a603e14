use vstd::prelude::*;
use crate::codegen::ops_nesting;
use crate::laws::lemma_parse_nesting;
use crate::program::{Op, ParseError, Program, Token, op_of, ops_of, lemma_ops_of_len, lemma_ops_of_push};

verus! {

/// The eight characters that carry meaning; every other character is a comment.
pub open spec fn is_instruction_char(c: char) -> bool {
    c == '>' || c == '<' || c == '+' || c == '-' || c == '.' || c == ',' || c == '[' || c == ']'
}

/// Wraps a sum into the range of a 16-bit signed integer.
pub open spec fn wrap_i16(x: int) -> int {
    if x > 32767 {
        x - 65536
    } else if x < -32768 {
        x + 65536
    } else {
        x
    }
}

/// Appends a pointer move by `d`, merging it into a pointer move that ends `ops`.
pub open spec fn fold_move(ops: Seq<Op>, d: int) -> Seq<Op> {
    if ops.len() > 0 && ops.last() is Move {
        ops.drop_last().push(Op::Move(ops.last()->Move_0 + d))
    } else {
        ops.push(Op::Move(d))
    }
}

/// Appends a value change by `d`, merging it into a value change that ends `ops`.
pub open spec fn fold_add(ops: Seq<Op>, d: int) -> Seq<Op> {
    if ops.len() > 0 && ops.last() is Add {
        ops.drop_last().push(Op::Add(wrap_i16(ops.last()->Add_0 + d)))
    } else {
        ops.push(Op::Add(d))
    }
}

/// One character read by the parser. `open` holds the sequences under construction,
/// outermost first; the last one is the innermost loop body still open.
pub open spec fn step(open: Seq<Seq<Op>>, c: char) -> Result<Seq<Seq<Op>>, ParseError> {
    let top = open.last();
    let rest = open.drop_last();
    if c == '>' {
        Ok(rest.push(fold_move(top, 1)))
    } else if c == '<' {
        Ok(rest.push(fold_move(top, -1)))
    } else if c == '+' {
        Ok(rest.push(fold_add(top, 1)))
    } else if c == '-' {
        Ok(rest.push(fold_add(top, -1)))
    } else if c == '.' {
        Ok(rest.push(top.push(Op::Out)))
    } else if c == ',' {
        Ok(rest.push(top.push(Op::In)))
    } else if c == '[' {
        Ok(open.push(Seq::empty()))
    } else if c == ']' {
        if open.len() <= 1 {
            Err(ParseError::MissingOpeningBracket)
        } else {
            Ok(rest.drop_last().push(rest.last().push(Op::Loop(top))))
        }
    } else {
        Ok(open)
    }
}

/// The state of the parser after reading all of `s`, or the first error met.
pub open spec fn scan(s: Seq<char>) -> Result<Seq<Seq<Op>>, ParseError>
    decreases s.len(),
{
    if s.len() == 0 {
        Ok(seq![Seq::empty()])
    } else {
        match scan(s.drop_last()) {
            Ok(open) => step(open, s.last()),
            Err(e) => Err(e),
        }
    }
}

/// Reading all of `s` succeeds and leaves `open` as the sequences under construction.
pub open spec fn scans_to(s: Seq<char>, open: Seq<Seq<Op>>) -> bool {
    scan(s) == Ok::<Seq<Seq<Op>>, ParseError>(open)
}

/// The program that a source text denotes, or why it has none.
pub open spec fn parse_text(s: Seq<char>) -> Result<Seq<Op>, ParseError> {
    match scan(s) {
        Ok(open) => if open.len() == 1 {
            Ok(open[0])
        } else {
            Err(ParseError::MissingClosingBracket)
        },
        Err(e) => Err(e),
    }
}

/// Opening brackets minus closing brackets in `s`.
pub open spec fn bracket_balance(s: Seq<char>) -> int
    decreases s.len(),
{
    if s.len() == 0 {
        0
    } else {
        bracket_balance(s.drop_last()) + if s.last() == '[' {
            1int
        } else if s.last() == ']' {
            -1int
        } else {
            0int
        }
    }
}

/// Read from `from`, the text closes one loop more than it opens exactly at `to`: the
/// character before `to` is the bracket that closes a loop open at `from`.
pub open spec fn closes_at(s: Seq<char>, from: int, to: int) -> bool {
    &&& 0 <= from < to <= s.len()
    &&& bracket_balance(s.take(to)) == bracket_balance(s.take(from)) - 1
    &&& forall|k: int|
        from <= k < to ==> #[trigger] bracket_balance(s.take(k)) >= bracket_balance(s.take(from))
}

/// Read from `from` to any point, the text never closes more loops than it opens.
pub open spec fn never_closes(s: Seq<char>, from: int) -> bool {
    forall|k: int|
        from <= k <= s.len() ==> #[trigger] bracket_balance(s.take(k)) >= bracket_balance(
            s.take(from),
        )
}

/// The model of a parse result.
pub open spec fn result_view(r: Result<Program, ParseError>) -> Result<Seq<Op>, ParseError> {
    match r {
        Ok(p) => Ok(p@),
        Err(e) => Err(e),
    }
}

/// Once the parser has failed on a prefix, it fails the same way on the whole text.
pub proof fn lemma_scan_err_extends(s: Seq<char>, k: int)
    requires
        0 <= k <= s.len(),
        scan(s.take(k)) is Err,
    ensures
        scan(s) == scan(s.take(k)),
    decreases s.len() - k,
{
    if k < s.len() {
        assert(s.take(k + 1).drop_last() =~= s.take(k));
        lemma_scan_err_extends(s, k + 1);
    } else {
        assert(s.take(k) =~= s);
    }
}

/// If `ops` ends with a pointer move, its offset lies within `bound` of zero.
pub open spec fn trailing_move_within(ops: Seq<Token>, bound: int) -> bool {
    ops.len() > 0 && ops.last() is PointerShift ==> {
        let m = ops.last()->PointerShift_0 as int;
        -bound <= m <= bound
    }
}

fn collect_chars(code: &str) -> (r: Vec<char>)
    ensures
        r@ == code@,
{
    let mut v: Vec<char> = Vec::new();
    let n = code.unicode_len();
    let mut i: usize = 0;
    while i < n
        invariant
            n == code@.len(),
            i <= n,
            v@ == code@.take(i as int),
        decreases n - i,
    {
        let c = code.get_char(i);
        v.push(c);
        i = i + 1;
        assert(v@ =~= code@.take(i as int));
    }
    assert(code@.take(n as int) =~= code@);
    v
}

impl Program {
    /// Parses a source text. Characters other than the eight instruction characters
    /// are ignored; adjacent pointer moves and adjacent value changes are merged.
    pub fn parse(code: &str) -> (r: Result<Program, ParseError>)
        requires
            code@.len() <= isize::MAX,
        ensures
            result_view(r) == parse_text(code@),
            r is Ok ==> ops_nesting(r->Ok_0@) <= code@.len(),
    {
        proof {
            lemma_parse_nesting(code@);
        }
        let chars = collect_chars(code);
        let mut pos: usize = 0;
        let mut bracket_count: usize = 0;
        assert(chars@.take(0) =~= Seq::<char>::empty());
        assert(Seq::<Seq<Op>>::empty().push(ops_of(Seq::<Token>::empty())) =~= seq![Seq::<Op>::empty()]);
        Program::parse_segment(&chars, &mut pos, &mut bracket_count, Ghost(Seq::empty()))
    }

    /// Parses from `pos` up to the bracket that closes the innermost open loop, or
    /// to the end of the text at the outermost level. `outer` holds the sequences of
    /// the enclosing levels, as far as they have been read.
    fn parse_segment(
        chars: &Vec<char>,
        pos: &mut usize,
        bracket_count: &mut usize,
        Ghost(outer): Ghost<Seq<Seq<Op>>>,
    ) -> (r: Result<Program, ParseError>)
        requires
            *old(pos) <= chars@.len() <= isize::MAX,
            *old(bracket_count) <= *old(pos),
            outer.len() == *old(bracket_count),
            scans_to(chars@.take(*old(pos) as int), outer.push(Seq::<Op>::empty())),
        ensures
            *old(pos) <= *final(pos) <= chars@.len(),
            match r {
                Ok(p) => if *old(bracket_count) > 0 {
                    &&& *final(bracket_count) == *old(bracket_count) - 1
                    &&& *final(bracket_count) <= *final(pos)
                    &&& closes_at(chars@, *old(pos) as int, *final(pos) as int)
                    &&& scans_to(
                        chars@.take(*final(pos) as int),
                        outer.drop_last().push(outer.last().push(Op::Loop(p@))),
                    )
                } else {
                    &&& *final(bracket_count) == 0
                    &&& *final(pos) == chars@.len()
                    &&& never_closes(chars@, *old(pos) as int)
                    &&& scans_to(chars@, seq![p@])
                },
                Err(ParseError::MissingOpeningBracket) => {
                    &&& *old(bracket_count) == 0
                    &&& closes_at(chars@, *old(pos) as int, *final(pos) as int)
                    &&& parse_text(chars@) == Err::<Seq<Op>, ParseError>(
                        ParseError::MissingOpeningBracket,
                    )
                },
                Err(ParseError::MissingClosingBracket) => {
                    &&& *final(pos) == chars@.len()
                    &&& never_closes(chars@, *old(pos) as int)
                    &&& parse_text(chars@) == Err::<Seq<Op>, ParseError>(
                        ParseError::MissingClosingBracket,
                    )
                },
            },
        decreases chars@.len() - *old(pos),
    {
        let mut program: Vec<Token> = Vec::new();
        while *pos < chars.len()
            invariant
                *old(pos) <= *pos <= chars@.len() <= isize::MAX,
                *bracket_count == *old(bracket_count),
                *bracket_count <= *pos,
                outer.len() == *old(bracket_count),
                scans_to(chars@.take(*pos as int), outer.push(ops_of(program@))),
                trailing_move_within(program@, *pos as int),
                bracket_balance(chars@.take(*pos as int)) == bracket_balance(
                    chars@.take(*old(pos) as int),
                ),
                forall|k: int|
                    *old(pos) <= k <= *pos ==> #[trigger] bracket_balance(chars@.take(k))
                        >= bracket_balance(chars@.take(*old(pos) as int)),
            decreases chars@.len() - *pos,
        {
            let c = chars[*pos];
            let ghost before = ops_of(program@);
            let ghost old_tokens = program@;
            let ghost open_at = *pos as int;
            let ghost base = bracket_balance(chars@.take(*old(pos) as int));
            *pos = *pos + 1;
            assert(chars@.take(*pos as int).drop_last() =~= chars@.take(*pos as int - 1));
            assert(outer.push(before).drop_last() =~= outer);
            proof {
                lemma_ops_of_len(program@);
                if program@.len() > 0 {
                    assert(before.last() == op_of(old_tokens.last()));
                    assert(before.drop_last() =~= ops_of(old_tokens.drop_last()));
                }
            }
            if c == '>' || c == '<' {
                let mut shift: isize = 0;
                let n = program.len();
                if n > 0 {
                    if let Token::PointerShift(s) = program[n - 1] {
                        shift = s;
                        program.pop();
                        assert(old_tokens.drop_last() =~= program@);
                    }
                }
                let t = if c == '>' {
                    Token::PointerShift(shift + 1)
                } else {
                    Token::PointerShift(shift - 1)
                };
                proof {
                    lemma_ops_of_push(program@, t);
                    assert(ops_of(program@.push(t)) =~= fold_move(before, if c == '>' { 1 } else { -1 }));
                }
                program.push(t);
            } else if c == '+' || c == '-' {
                let mut shift: i16 = 0;
                let n = program.len();
                if n > 0 {
                    if let Token::ValueShift(s) = program[n - 1] {
                        shift = s;
                        program.pop();
                        assert(old_tokens.drop_last() =~= program@);
                    }
                }
                let t = if c == '+' {
                    Token::ValueShift(if shift == i16::MAX { i16::MIN } else { shift + 1 })
                } else {
                    Token::ValueShift(if shift == i16::MIN { i16::MAX } else { shift - 1 })
                };
                proof {
                    lemma_ops_of_push(program@, t);
                    assert(ops_of(program@.push(t)) =~= fold_add(before, if c == '+' { 1 } else { -1 }));
                }
                program.push(t);
            } else if c == '.' {
                proof { lemma_ops_of_push(program@, Token::ValueOutput); }
                program.push(Token::ValueOutput);
            } else if c == ',' {
                proof { lemma_ops_of_push(program@, Token::ValueInput); }
                program.push(Token::ValueInput);
            } else if c == '[' {
                *bracket_count = *bracket_count + 1;
                let ghost inner_outer = outer.push(before);
                assert(inner_outer.push(Seq::<Op>::empty()) =~= outer.push(before).push(Seq::empty()));
                let body = match Program::parse_segment(chars, pos, bracket_count, Ghost(inner_outer)) {
                    Ok(b) => b,
                    Err(e) => {
                        proof {
                            assert forall|k: int|
                                *old(pos) <= k <= chars@.len() implies #[trigger] bracket_balance(
                                chars@.take(k),
                            ) >= base by {
                                if k > open_at {
                                    assert(bracket_balance(chars@.take(k)) >= bracket_balance(
                                        chars@.take(open_at + 1),
                                    ));
                                }
                            }
                        }
                        return Err(e);
                    },
                };
                proof {
                    assert forall|k: int|
                        *old(pos) <= k <= *pos implies #[trigger] bracket_balance(chars@.take(k))
                        >= base by {
                        if k > open_at && k < *pos {
                            assert(bracket_balance(chars@.take(k)) >= bracket_balance(
                                chars@.take(open_at + 1),
                            ));
                        }
                    }
                }
                assert(inner_outer.drop_last() =~= outer);
                let t = Token::Loop(body);
                proof { lemma_ops_of_push(program@, t); }
                program.push(t);
            } else if c == ']' {
                if *bracket_count > 0 {
                    *bracket_count = *bracket_count - 1;
                    return Ok(Program(program));
                } else {
                    proof { lemma_scan_err_extends(chars@, *pos as int); }
                    return Err(ParseError::MissingOpeningBracket);
                }
            }
        }
        assert(chars@.take(*pos as int) =~= chars@);
        if *bracket_count == 0 {
            assert(outer.push(ops_of(program@)) =~= seq![ops_of(program@)]);
            Ok(Program(program))
        } else {
            Err(ParseError::MissingClosingBracket)
        }
    }
}

impl std::str::FromStr for Program {
    type Err = ParseError;

    /// Parses as `Program::parse` does. A `str` holds at most `isize::MAX` bytes, so
    /// the length test always passes; it restates that bound, which `parse` needs.
    fn from_str(s: &str) -> (r: Result<Program, ParseError>)
        ensures
            s@.len() <= isize::MAX ==> result_view(r) == parse_text(s@),
    {
        if s.unicode_len() <= isize::MAX as usize {
            Program::parse(s)
        } else {
            Err(ParseError::MissingClosingBracket)
        }
    }
}

} // verus!
