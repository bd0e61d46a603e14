use bfc::{ParseError, Program, RunError, Token, Reader, VecSink, VecSource, Writer};

fn run_on_tape(code: &str, tape: &mut Vec<u8>, pointer: &mut usize, input: &[u8]) -> (Result<(), RunError>, Vec<u8>) {
    let program = Program::parse(code).unwrap();
    let mut source = Reader::new(VecSource::new(input.to_vec()));
    let mut sink = Writer::new(VecSink::new());
    let result = program.interpret_with_custom_io(tape, pointer, &mut source, &mut sink);
    (result, sink.sink.bytes)
}

#[test]
fn same_direction_moves_fold_into_one() {
    assert_eq!(Program::parse(">>"), Ok(Program::new(vec![Token::PointerShift(2)])));
    assert_eq!(Program::parse("<<"), Ok(Program::new(vec![Token::PointerShift(-2)])));
    assert_eq!(Program::parse("> x >"), Ok(Program::new(vec![Token::PointerShift(2)])));
}

#[test]
fn net_zero_runs_are_kept() {
    assert_eq!(Program::parse("><"), Ok(Program::new(vec![Token::PointerShift(0)])));
    assert_eq!(Program::parse("+-"), Ok(Program::new(vec![Token::ValueShift(0)])));
}

#[test]
fn folding_does_not_cross_other_instructions() {
    assert_eq!(
        Program::parse(">.>[>]>"),
        Ok(Program::new(vec![
            Token::PointerShift(1),
            Token::ValueOutput,
            Token::PointerShift(1),
            Token::Loop(Program::new(vec![Token::PointerShift(1)])),
            Token::PointerShift(1),
        ]))
    );
}

#[test]
fn value_changes_wrap_at_sixteen_bits() {
    let code = "+".repeat(32768);
    assert_eq!(Program::parse(&code), Ok(Program::new(vec![Token::ValueShift(i16::MIN)])));
    let code = "-".repeat(32769);
    assert_eq!(Program::parse(&code), Ok(Program::new(vec![Token::ValueShift(i16::MAX)])));
}

#[test]
fn comments_and_empty_text_parse_to_empty_programs() {
    assert_eq!(Program::parse(""), Ok(Program::new(vec![])));
    assert_eq!(Program::parse("hello world"), Ok(Program::new(vec![])));
}

#[test]
fn unbalanced_brackets_are_reported() {
    assert_eq!(Program::parse("]"), Err(ParseError::MissingOpeningBracket));
    assert_eq!(Program::parse("]["), Err(ParseError::MissingOpeningBracket));
    assert_eq!(Program::parse("+[[-]]]"), Err(ParseError::MissingOpeningBracket));
    assert_eq!(Program::parse("["), Err(ParseError::MissingClosingBracket));
    assert_eq!(Program::parse("[[-]"), Err(ParseError::MissingClosingBracket));
    assert!(Program::parse("[[-]>[+]]").is_ok());
}

#[test]
fn value_changes_wrap_modulo_256() {
    let mut tape = vec![0u8; 4];
    let (result, output) = run_on_tape("-.+.", &mut tape, &mut 0, &[]);
    assert_eq!(result, Ok(()));
    assert_eq!(output, vec![255, 0]);
    let mut tape = vec![250u8; 1];
    let (result, _) = run_on_tape(&"+".repeat(300), &mut tape, &mut 0, &[]);
    assert_eq!(result, Ok(()));
    assert_eq!(tape, vec![38]);
}

#[test]
fn exhausted_input_leaves_the_cell_unchanged() {
    let mut tape = vec![0u8; 1];
    let (result, output) = run_on_tape("+++,.", &mut tape, &mut 0, &[]);
    assert_eq!(result, Ok(()));
    assert_eq!(output, vec![3]);
    assert_eq!(tape, vec![3]);
}

#[test]
fn cursor_stays_on_the_tape() {
    let mut tape = vec![0u8; 2];
    let mut pointer = 0;
    let (result, _) = run_on_tape("+<", &mut tape, &mut pointer, &[]);
    assert_eq!(result, Err(RunError::PointerOutOfBounds));
    assert_eq!(pointer, 0);
    assert_eq!(tape, vec![1, 0]);
    let mut pointer = 0;
    let (result, _) = run_on_tape(">>", &mut tape, &mut pointer, &[]);
    assert_eq!(result, Err(RunError::PointerOutOfBounds));
    assert_eq!(pointer, 0);
    let mut pointer = 0;
    let (result, _) = run_on_tape(">", &mut tape, &mut pointer, &[]);
    assert_eq!(result, Ok(()));
    assert_eq!(pointer, 1);
}

#[test]
fn loops_run_until_the_cell_is_zero() {
    let mut tape = vec![0u8; 3];
    let mut pointer = 0;
    let (result, _) = run_on_tape("+++[>++<-]>[>+++<-]", &mut tape, &mut pointer, &[]);
    assert_eq!(result, Ok(()));
    assert_eq!(tape, vec![0, 0, 18]);
    assert_eq!(pointer, 1);
}

#[test]
fn instruction_templates() {
    assert_eq!(
        Token::PointerShift(-3).to_assembly(0),
        "; POINTER SHIFT\nadd X6, X6, #-3  \n\n"
    );
    assert_eq!(
        Token::ValueShift(12).to_assembly(4),
        "; VALUE SHIFT\nldrb    W7, [X6]\nadd     W7, W7, #12\nstrb    W7, [X6] \n\n"
    );
    assert_eq!(
        Token::ValueOutput.to_assembly(0),
        "; VALUE OUTPUT\nmov      X1, X6\nsyscall3 SYS_write, STDOUT, X1, 1\n\n"
    );
    assert_eq!(
        Token::ValueInput.to_assembly(0),
        "; VALUE INPUT\nmov     X1, X6\nsyscall3 SYS_read,  STDIN,  X1, 1\n\n"
    );
}

#[test]
fn loop_labels_follow_depth() {
    let body = Program::new(vec![Token::ValueOutput]);
    let text = Token::Loop(body).to_assembly(2);
    assert_eq!(
        text,
        "; LOOP\n5:\nldrb W7, [X6]\ncmp  W7, #0\nb.eq 6f\n\n; VALUE OUTPUT\nmov      X1, X6\nsyscall3 SYS_write, STDOUT, X1, 1\n\n\nb 5b\n6:\n\n"
    );
}

#[test]
fn nested_loops_get_distinct_labels() {
    let program = Program::parse("[[[-]]]").unwrap();
    let text = program.compile_to_assembly(10);
    for label in 1..=6 {
        assert_eq!(text.matches(&format!("\n{}:\n", label)).count(), 1);
    }
    assert!(!text.contains("\n7:\n"));
}

#[test]
fn sibling_loops_reuse_the_labels_of_their_depth() {
    let program = Program::parse("[-][+]").unwrap();
    let text = program.compile_to_assembly(10);
    assert_eq!(text.matches("\n1:\n").count(), 2);
    assert_eq!(text.matches("\n2:\n").count(), 2);
}

#[test]
fn program_text_has_preamble_and_exit() {
    let program = Program::parse(">").unwrap();
    let text = program.compile_to_assembly(3000);
    assert!(text.starts_with(".macro syscall1 syscall X0 \n"));
    assert!(text.contains("    .lcomm memory, 3000\n\n.text\n"));
    assert!(text.ends_with("; Program:\n\n; POINTER SHIFT\nadd X6, X6, #1  \n\n\nsyscall1 SYS_return, #0\n"));
    let empty = Program::parse("").unwrap().compile_to_assembly(0);
    assert!(empty.contains(".lcomm memory, 0\n"));
}

#[test]
fn runs_with_comments_fold_into_one() {
    assert_eq!(Program::parse("> a > b >"), Ok(Program::new(vec![Token::PointerShift(3)])));
    assert_eq!(Program::parse("<\n<\n<\n<"), Ok(Program::new(vec![Token::PointerShift(-4)])));
    assert_eq!(Program::parse("-x-y-z-w-"), Ok(Program::new(vec![Token::ValueShift(-5)])));
    let code = "+ ".repeat(32767);
    assert_eq!(Program::parse(&code), Ok(Program::new(vec![Token::ValueShift(i16::MAX)])));
}

#[test]
fn from_str_parses_as_parse_does() {
    for code in ["", "+[->+<]", "[[]", "[]][", "a>b>c"] {
        assert_eq!(code.parse::<Program>(), Program::parse(code));
    }
}

#[test]
fn branches_resolve_to_their_own_loop() {
    let program = Program::parse("[[-]>[+[.]]]>[,]").unwrap();
    let text = program.compile_to_assembly(8);
    let lines: Vec<&str> = text.lines().collect();
    let mut loops = 0;
    for (i, line) in lines.iter().enumerate() {
        if let Some(rest) = line.strip_prefix("b.eq ") {
            loops += 1;
            let exit = rest.strip_suffix('f').unwrap();
            let j = (i + 1..lines.len()).find(|&j| lines[j] == format!("{}:", exit)).unwrap();
            let back = lines[j - 1].strip_prefix("b ").unwrap().strip_suffix('b').unwrap();
            let k = (0..j - 1).rev().find(|&k| lines[k] == format!("{}:", back)).unwrap();
            assert_eq!(k + 3, i, "loop at line {}", i);
        }
    }
    assert_eq!(loops, 5);
}

struct CountingSource {
    calls: usize,
}

impl bfc::ByteSource for CountingSource {
    fn next_byte(&mut self) -> Option<u8> {
        self.calls += 1;
        None
    }
}

struct CountingSink {
    calls: usize,
}

impl bfc::ByteSink for CountingSink {
    fn put(&mut self, _b: u8) {
        self.calls += 1;
    }
}

fn count_calls(code: &str) -> (usize, usize) {
    let program = Program::parse(code).unwrap();
    let mut input = Reader::new(CountingSource { calls: 0 });
    let mut output = Writer::new(CountingSink { calls: 0 });
    program.interpret_with_custom_io(&mut vec![0; 3000], &mut 0, &mut input, &mut output).unwrap();
    (input.source.calls, output.sink.calls)
}

#[test]
fn each_input_and_output_instruction_calls_once() {
    assert_eq!(count_calls(",,."), (2, 1));
    assert_eq!(count_calls("+++[-.,]"), (3, 3));
    assert_eq!(
        count_calls("++++++++[>++++[>++>+++>+++>+<<<<-]>+>+>->>+[<]<-]>>.>---.+++++++..+++.>>.<-.<.+++.------.--------.>>+.>++."),
        (0, 13)
    );
}
