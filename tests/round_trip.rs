use bfc::{Program, Reader, VecSink, VecSource, Writer};

/// Executes the text one character at a time, jumping between matching brackets.
fn simulate(code: &str, tape_size: usize, input: &[u8]) -> (Vec<u8>, usize, Vec<u8>) {
    let chars: Vec<char> = code.chars().filter(|c| "<>+-.,[]".contains(*c)).collect();
    let mut partner = vec![0usize; chars.len()];
    let mut open = Vec::new();
    for (i, c) in chars.iter().enumerate() {
        if *c == '[' {
            open.push(i);
        } else if *c == ']' {
            let j = open.pop().unwrap();
            partner[i] = j;
            partner[j] = i;
        }
    }
    let mut tape = vec![0u8; tape_size];
    let mut pointer = 0usize;
    let mut output = Vec::new();
    let mut next_input = input.iter().copied();
    let mut pc = 0usize;
    while pc < chars.len() {
        match chars[pc] {
            '>' => pointer += 1,
            '<' => pointer -= 1,
            '+' => tape[pointer] = tape[pointer].wrapping_add(1),
            '-' => tape[pointer] = tape[pointer].wrapping_sub(1),
            '.' => output.push(tape[pointer]),
            ',' => {
                if let Some(b) = next_input.next() {
                    tape[pointer] = b;
                }
            }
            '[' => {
                if tape[pointer] == 0 {
                    pc = partner[pc];
                }
            }
            _ => {
                if tape[pointer] != 0 {
                    pc = partner[pc];
                }
            }
        }
        pc += 1;
    }
    (tape, pointer, output)
}

fn interpret(code: &str, tape_size: usize, input: &[u8]) -> (Vec<u8>, usize, Vec<u8>) {
    let program = Program::parse(code).unwrap();
    let mut source = Reader::new(VecSource::new(input.to_vec()));
    let mut sink = Writer::new(VecSink::new());
    let mut tape = vec![0u8; tape_size];
    let mut pointer = 0usize;
    program.interpret_with_custom_io(&mut tape, &mut pointer, &mut source, &mut sink).unwrap();
    (tape, pointer, sink.sink.bytes)
}

#[test]
fn parsed_runs_match_character_simulation() {
    let cases: [(&str, &[u8]); 5] = [
        ("++>+++[<+>-]<.", b""),
        (",[.,]", b"echo\0"),
        ("+++++[>+++++[>++<-]<-]>>.<<---.++++++++.", b""),
        ("++++++++[>++++[>++>+++>+++>+<<<<-]>+>+>->>+[<]<-]>>.>---.+++++++..+++.>>.<-.<.+++.------.--------.>>+.>++.", b""),
        ("->>+<<[->>[->+<]<<]>>>[-<+>]<.,+.", b"\x07"),
    ];
    for (code, input) in cases {
        assert_eq!(interpret(code, 64, input), simulate(code, 64, input), "{}", code);
    }
}
