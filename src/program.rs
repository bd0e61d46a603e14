use vstd::prelude::*;

verus! {

/// One instruction of a program, as executed by the interpreter and lowered by the
/// code generator.
#[derive(Debug, PartialEq, Eq)]
pub enum Token {
    /// Moves the tape cursor by the given signed offset.
    PointerShift(isize),
    /// Adds the given amount to the cell under the cursor, modulo 256.
    ValueShift(i16),
    /// Emits the byte under the cursor.
    ValueOutput,
    /// Reads one byte into the cell under the cursor.
    ValueInput,
    /// Runs the body while the cell under the cursor is nonzero.
    Loop(Program),
}

/// An ordered sequence of instructions; nested programs sit inside `Token::Loop`.
#[derive(Debug, PartialEq, Eq)]
pub struct Program(pub Vec<Token>);

/// The mathematical model of one instruction.
pub enum Op {
    Move(int),
    Add(int),
    Out,
    In,
    Loop(Seq<Op>),
}

pub open spec fn op_of(t: Token) -> Op
    decreases t, 1int,
{
    match t {
        Token::PointerShift(n) => Op::Move(n as int),
        Token::ValueShift(n) => Op::Add(n as int),
        Token::ValueOutput => Op::Out,
        Token::ValueInput => Op::In,
        Token::Loop(p) => Op::Loop(ops_of(p.0@)),
    }
}

pub open spec fn ops_of(ts: Seq<Token>) -> Seq<Op>
    decreases ts, 0int,
{
    if ts.len() == 0 {
        Seq::empty()
    } else {
        ops_of(ts.drop_last()).push(op_of(ts.last()))
    }
}

/// The model of a sequence of tokens is the sequence of their models.
pub proof fn lemma_ops_of_len(ts: Seq<Token>)
    ensures
        ops_of(ts).len() == ts.len(),
    decreases ts.len(),
{
    if ts.len() > 0 {
        lemma_ops_of_len(ts.drop_last());
    }
}

/// Each element of the model of a token sequence is the model of that token.
pub proof fn lemma_ops_of_index(ts: Seq<Token>, i: int)
    requires
        0 <= i < ts.len(),
    ensures
        ops_of(ts)[i] == op_of(ts[i]),
    decreases ts.len(),
{
    lemma_ops_of_len(ts.drop_last());
    if i < ts.len() - 1 {
        lemma_ops_of_index(ts.drop_last(), i);
    }
}

/// Appending a token appends its model.
pub proof fn lemma_ops_of_push(ts: Seq<Token>, t: Token)
    ensures
        ops_of(ts.push(t)) == ops_of(ts).push(op_of(t)),
{
    assert(ts.push(t).drop_last() =~= ts);
}

impl View for Token {
    type V = Op;

    open spec fn view(&self) -> Op {
        op_of(*self)
    }
}

impl View for Program {
    type V = Seq<Op>;

    open spec fn view(&self) -> Seq<Op> {
        ops_of(self.0@)
    }
}

impl Program {
    /// A program made of the given instructions, in order.
    pub fn new(tokens: Vec<Token>) -> (r: Self)
        ensures
            r.0@ == tokens@,
    {
        Program(tokens)
    }
}

/// The two ways in which the loop delimiters of a source text can fail to match.
#[derive(Debug, PartialEq, Eq)]
pub enum ParseError {
    MissingClosingBracket,
    MissingOpeningBracket,
}

} // verus!
