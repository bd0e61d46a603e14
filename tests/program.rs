use bfc::{ParseError, Program, RunError, Token, Reader, VecSink, VecSource, Writer};

fn run_with_bytes(code: &str, input: &[u8]) -> (Result<(), RunError>, Vec<u8>, usize) {
    let program = code.parse::<Program>().unwrap();
    let mut source = Reader::new(VecSource::new(input.to_vec()));
    let mut sink = Writer::new(VecSink::new());
    let result = program.interpret_with_custom_io(&mut vec![0; 3000], &mut 0, &mut source, &mut sink);
    (result, sink.sink.bytes, source.source.unread_len())
}

fn assert_run(code: &str, input: &[u8], expected: &[u8]) {
    let (result, output, unread) = run_with_bytes(code, input);
    assert_eq!(result, Ok(()));
    assert_eq!(output, expected.to_vec());
    assert_eq!(unread, 0);
}

#[test]
pub fn test_parser() {
    let code = "-+.--- <<>.>>[-],.";
    assert_eq!(
        code.parse::<Program>(),
        Ok(Program::new(vec![
            Token::ValueShift(0),
            Token::ValueOutput,
            Token::ValueShift(-3),
            Token::PointerShift(-1),
            Token::ValueOutput,
            Token::PointerShift(2),
            Token::Loop(Program::new(vec![Token::ValueShift(-1)])),
            Token::ValueInput,
            Token::ValueOutput,
        ]))
    );
    let code = "[[]";
    assert_eq!(code.parse::<Program>(), Err(ParseError::MissingClosingBracket));

    let code = "[]]";
    assert_eq!(code.parse::<Program>(), Err(ParseError::MissingOpeningBracket));
    let code = "[]][";
    assert_eq!(code.parse::<Program>(), Err(ParseError::MissingOpeningBracket));
}

#[test]
pub fn test_interpreter() {
    assert_run(r#",+.."#, &[1], &[2, 2]);
    assert_run(
        r#"+++++++++++
    >+>>>>++++++++++++++++++++++++++++++++++++++++++++
    >++++++++++++++++++++++++++++++++<<<<<<[>[>>>>>>+>
    +<<<<<<<-]>>>>>>>[<<<<<<<+>>>>>>>-]<[>++++++++++[-
    <-[>>+>+<<<-]>>>[<<<+>>>-]+<[>[-]<[-]]>[<<[>>>+<<<
    -]>>[-]]<<]>>>[>>+>+<<<-]>>>[<<<+>>>-]+<[>[-]<[-]]
    >[<<+>>[-]]<<<<<<<]>>>>>[+++++++++++++++++++++++++
    +++++++++++++++++++++++.[-]]++++++++++<[->-<]>++++
    ++++++++++++++++++++++++++++++++++++++++++++.[-]<<
    <<<<<<<<<<[>>>+>+<<<<-]>>>>[<<<<+>>>>-]<-[>>.>.<<<
    [-]]<<[>>+>+<<<-]>>>[<<<+>>>-]<<[<+>-]>[<+>-]<<<-]"#,
        b"",
        b"1, 1, 2, 3, 5, 8, 13, 21, 34, 55, 89",
    );
    assert_run(
        r#"++++++++[>++++[>++>+++>+++>+<<<<-]>+>+>->>+[<]<-]>>.>---.+++++++..+++.>>.<-.<.+++.------.--------.>>+.>++.
    "#,
        b"",
        b"Hello World!\n",
    );
    assert_run(
        r#"-,+[                         Read first character and start outer character reading loop
    -[                       Skip forward if character is 0
        >>++++[>++++++++<-]  Set up divisor (32) for division loop
                               (MEMORY LAYOUT: dividend copy remainder divisor quotient zero zero)
        <+<-[                Set up dividend (x minus 1) and enter division loop
            >+>+>-[>>>]      Increase copy and remainder / reduce divisor / Normal case: skip forward
            <[[>+<-]>>+>]    Special case: move remainder back to divisor and increase quotient
            <<<<<-           Decrement dividend
        ]                    End division loop
    ]>>>[-]+                 End skip loop; zero former divisor and reuse space for a flag
    >--[-[<->+++[-]]]<[         Zero that flag unless quotient was 2 or 3; zero quotient; check flag
        ++++++++++++<[       If flag then set up divisor (13) for second division loop
                               (MEMORY LAYOUT: zero copy dividend divisor remainder quotient zero zero)
            >-[>+>>]         Reduce divisor; Normal case: increase remainder
            >[+[<+>-]>+>>]   Special case: increase remainder / move it back to divisor / increase quotient
            <<<<<-           Decrease dividend
        ]                    End division loop
        >>[<+>-]             Add remainder back to divisor to get a useful 13
        >[                   Skip forward if quotient was 0
            -[               Decrement quotient and skip forward if quotient was 1
                -<<[-]>>     Zero quotient and divisor if quotient was 2
            ]<<[<<->>-]>>    Zero divisor and subtract 13 from copy if quotient was 1
        ]<<[<<+>>-]          Zero divisor and add 13 to copy if quotient was 0
    ]                        End outer skip loop (jump to here if ((character minus 1)/32) was not 2 or 3)
    <[-]                     Clear remainder from first division if second division was skipped
    <.[-]                    Output ROT13ed character from copy and clear it
    <-,+                     Read next character
]                            End character reading loop"#,
        b"ABCDEFGHIJKLMNOPQRSTUVWXYZabcdefghijklmnopqrstuvwxyz",
        b"NOPQRSTUVWXYZABCDEFGHIJKLMnopqrstuvwxyzabcdefghijklm",
    );
}
