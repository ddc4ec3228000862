use quirl::bfvm::VM;
use quirl::prog_state::ProgOutput;

#[test]
fn test_run_with_input() {
    let in_str = r#"[]++++++++++[>>+>+>++++++[<<+<+++>>>-]<<<<-]
            "A*$";?@![#>>+<<]>[>>]<<<<[>++<[-]]>.>."#;
    let expected_output = ProgOutput { status: None, std_out: vec![72, 10] };
    let output = VM::run_with_input(in_str);
    println!("{:?}", output);
    assert_eq!(output.std_out, expected_output.std_out);
}

#[test]
fn output_2_program() {
    let prog_string = "++.";
    let expected_output = ProgOutput { status: None, std_out: vec![2] };
    let vm_output = VM::run_with_input(prog_string);
    assert_eq!(vm_output.std_out, expected_output.std_out);
}

#[test]
fn hello_world() {
    let prog_str = "++++++++[>++++[>++>+++>+++>+<<<<-]>+>+>->>+[<]<-]>>.>---.+++++++..+++.>>.<-.<.+++.------.--------.>>+.>++.";
    let res = VM::run_with_input(prog_str);
    let out_str = std::str::from_utf8(&res.std_out);
    let res = match out_str {
        Ok(string) => string,
        Err(error) => {
            println!("{}", error);
            ""
        },
    };
    assert_eq!(res, "Hello World!\n");
}

/// The following tests are obtained from :
///    Daniel B Cristofani (cristofdathevanetdotcom)
///    http://www.hevanet.com/cristofd/brainfuck/
///    Here are some little programs for testing brainfuck implementations.
///
/// This is for testing i/o. It should give two lines of output; the two
/// lines should be identical, and should be lined up one over the other.
/// The run supplies no input bytes, and at end of input `,` stores a zero
/// byte, so both lines read "BB".
#[test]
fn test_new_line() {
    let prog_str = ">,>+++++++++,>+++++++++++[<++++++<++++++<+>>>-]<<.>.<<-.>.>.<<.";
    let res = VM::run_with_input(prog_str);
    let out_str = std::str::from_utf8(&res.std_out);
    let res = match out_str {
        Ok(string) => {
            println!("{}", string);
            string
        },
        Err(error) => {
            println!("{}", error);
            ""
        },
    };
    assert_eq!(res, "BB\nBB\n");
}

/// Goes to cell 30000 and reports from there with a #. (Verifies that the
/// array is big enough.)
#[test]
fn test_cell_30000() {
    let prog_str = "++++[>++++++<-]>[>+++++>+++++++<<-]>>++++<[[>[[>>+<<-]<]>>>-]>-[>+>+<<-]>]+++++[>+++++++<<++>-]>.<<.";
    let res = VM::run_with_input(prog_str);
    let out_str = std::str::from_utf8(&res.std_out);
    let res = match out_str {
        Ok(string) => {
            println!("{}", string);
            string
        },
        Err(error) => {
            println!("{}", error);
            ""
        },
    };
    assert_eq!(res, "#\n");
}

/// Tests for several obscure problems. Should output an H.
#[test]
fn test_obscure_problems() {
    let prog_str = r#""[]++++++++++[>>+>+>++++++[<<+<+++>>>-]<<<<-]"A*$";?@![#>>+<<]>[>>]<<<<[>++<[-]]>.>."#;
    let res = VM::run_with_input(prog_str);
    let out_str = std::str::from_utf8(&res.std_out);
    let res = match out_str {
        Ok(string) => {
            println!("{}", string);
            string
        },
        Err(error) => {
            println!("{}", error);
            ""
        },
    };
    assert_eq!(res, "H\n");
}

/// Should ideally give error message "unmatched [" or the like, and not give
/// any output. Not essential.
#[test]
fn test_unmatched_l_bracket() {
    let prog_str = r#"+++++[>+++++++>++<<-]>.>.["#;
    let res = VM::run_with_input(prog_str);
    println!("{:?}", res.status);
    assert!(res.status.is_some());
}

/// Should ideally give error message "unmatched ]" or the like, and not give
/// any output. Not essential.
#[test]
fn test_unmatched_r_bracket() {
    let prog_str = r#"+++++[>+++++++>++<<-]>.>.]["#;
    let res = VM::run_with_input(prog_str);
    println!("{:?}", res.status);
    assert!(res.status.is_some());
}

#[test]
fn unmatched_open_alone() {
    // one unmatched open: the diagnostic names it and no output is produced
    let res = VM::run_with_input("[");
    assert_eq!(res.status, Some(String::from("Unmatched [")));
    assert!(res.std_out.is_empty());
}

#[test]
fn unmatched_close_before_open() {
    // a close with no opener is reported, before the trailing open
    let res = VM::run_with_input("][");
    assert_eq!(res.status, Some(String::from("Unmatched ]")));
    assert!(res.std_out.is_empty());
}

#[test]
fn wrap_around_256_increments() {
    // incrementing a cell 256 times returns it to zero
    let mut prog = String::new();
    for _ in 0..256 {
        prog.push('+');
    }
    prog.push('.');
    let res = VM::run_with_input(&prog);
    assert_eq!(res.status, None);
    assert_eq!(res.std_out, vec![0]);
}

#[test]
fn wrap_around_decrement_zero() {
    // decrementing a zero cell yields 255
    let res = VM::run_with_input("-.");
    assert_eq!(res.status, None);
    assert_eq!(res.std_out, vec![255]);
}

#[test]
fn underflow_fault_keeps_output() {
    // the fault is reported and the byte already emitted stays
    let res = VM::run_with_input("+.<.");
    assert_eq!(res.status, Some(String::from("Tape underflow")));
    assert_eq!(res.std_out, vec![1]);
}

#[test]
fn overflow_fault_keeps_output() {
    // 29999 moves right reach the last cell; one more faults
    let mut prog = String::from("+.");
    for _ in 0..30000 {
        prog.push('>');
    }
    let res = VM::run_with_input(&prog);
    assert_eq!(res.status, Some(String::from("Tape overflow")));
    assert_eq!(res.std_out, vec![1]);
}

#[test]
fn zero_iteration_loop() {
    // the guard cell is zero, so the loop body never runs
    let res = VM::run_with_input("[+].");
    assert_eq!(res.status, None);
    assert_eq!(res.std_out, vec![0]);
}

#[test]
fn input_stores_zero() {
    // the run carries no input bytes: `,` stores a zero byte
    let res = VM::run_with_input("+,.");
    assert_eq!(res.status, None);
    assert_eq!(res.std_out, vec![0]);
}
