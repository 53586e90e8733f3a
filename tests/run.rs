use brainfuck::buffer::{Buffer, Offset};
use brainfuck::parser::{self, parse, tokenize, Expression, Token};
use brainfuck::{run, run_bounded, Error, IO, TAPE_SIZE};

struct TestIO(String);

impl IO for TestIO {
    type Err = ();

    fn input(&mut self) -> Result<i32, Self::Err> {
        unreachable!("this program reads no input")
    }

    fn output(&mut self, val: i32) -> Result<(), Self::Err> {
        self.0.push(val as u8 as char);
        Ok(())
    }
}

/// Answers inputs from a queue and records every output value.
struct Queue {
    inputs: Vec<i32>,
    next: usize,
    outputs: Vec<i32>,
    fail_output: bool,
}

impl Queue {
    fn new(inputs: Vec<i32>) -> Self {
        Queue { inputs, next: 0, outputs: Vec::new(), fail_output: false }
    }
}

impl IO for Queue {
    type Err = &'static str;

    fn input(&mut self) -> Result<i32, Self::Err> {
        if self.next < self.inputs.len() {
            self.next += 1;
            Ok(self.inputs[self.next - 1])
        } else {
            Err("input exhausted")
        }
    }

    fn output(&mut self, val: i32) -> Result<(), Self::Err> {
        if self.fail_output {
            return Err("output closed");
        }
        self.outputs.push(val);
        Ok(())
    }
}

#[test]
fn it_works() {
    let mut io = TestIO(String::new());
    let res = run("++++++++++[>+++++++>++++++++++>+++>+<<<<-]\
        >++.>+.+++++++..+++.>++.<<+++++++++++++++.>.\
        +++.------.--------.>+.>.", &mut io);
    println!("{:?}", res);
    assert_eq!(io.0, "Hello World!\n")
}

#[test]
fn hello_world_succeeds_without_input() {
    let mut io = Queue::new(vec![]);
    let res = run("++++++++++[>+++++++>++++++++++>+++>+<<<<-]>++.>+.+++++++..+++.>++.<<+++++++++++++++.>.+++.------.--------.>+.>.", &mut io);
    assert!(res.is_ok());
    let text: String = io.outputs.iter().map(|v| *v as u8 as char).collect();
    assert_eq!(text, "Hello World!\n");
}

#[test]
fn echo_one_input() {
    let mut io = Queue::new(vec![65]);
    let res = run(",.", &mut io);
    assert!(res.is_ok());
    assert_eq!(io.outputs, vec![65]);
    assert_eq!(io.outputs[0] as u8 as char, 'A');
}

#[test]
fn lone_close_is_unbalanced() {
    let mut io = Queue::new(vec![]);
    assert!(matches!(run("]", &mut io), Err(Error::Parser(parser::Error::LoopNotCompatible))));
}

#[test]
fn lone_open_is_unbalanced() {
    let mut io = Queue::new(vec![]);
    assert!(matches!(run("[", &mut io), Err(Error::Parser(parser::Error::LoopNotCompatible))));
}

#[test]
fn unknown_character_is_invalid_input() {
    let mut io = Queue::new(vec![]);
    assert!(matches!(run("@", &mut io), Err(Error::Parser(parser::Error::InvalidInput(0)))));
}

#[test]
fn invalid_position_skips_whitespace() {
    assert_eq!(parse(" \t+\n +x+").unwrap_err(), parser::Error::InvalidInput(2));
    assert_eq!(parse("+[ >a ]").unwrap_err(), parser::Error::InvalidInput(3));
    assert_eq!(parse("++ b c").unwrap_err(), parser::Error::InvalidInput(2));
}

#[test]
fn unbalanced_loops_are_refused() {
    assert_eq!(parse("[[]").unwrap_err(), parser::Error::LoopNotCompatible);
    assert_eq!(parse("[]]").unwrap_err(), parser::Error::LoopNotCompatible);
    assert_eq!(parse("][").unwrap_err(), parser::Error::LoopNotCompatible);
    assert_eq!(parse("+[>[-]").unwrap_err(), parser::Error::LoopNotCompatible);
    assert!(parse("[[]][]").is_ok());
}

#[test]
fn parse_error_comes_before_any_io() {
    let mut io = Queue::new(vec![1]);
    assert!(matches!(run(",.]", &mut io), Err(Error::Parser(parser::Error::LoopNotCompatible))));
    assert_eq!(io.next, 0);
    assert!(io.outputs.is_empty());
}

#[test]
fn runs_merge_into_one_node() {
    let e = parse("+++").unwrap();
    assert_eq!(e.len(), 1);
    assert!(matches!(e[0], Expression::ValOffset(Offset::Inc(3))));
    let e = parse(">>>>><<").unwrap();
    assert_eq!(e.len(), 2);
    assert!(matches!(e[0], Expression::PtrOffset(Offset::Inc(5))));
    assert!(matches!(e[1], Expression::PtrOffset(Offset::Dec(2))));
    let e = parse("-- -\n-").unwrap();
    assert_eq!(e.len(), 1);
    assert!(matches!(e[0], Expression::ValOffset(Offset::Dec(4))));
}

#[test]
fn opposite_directions_do_not_merge() {
    let e = parse("+-+").unwrap();
    assert_eq!(e.len(), 3);
    assert!(matches!(e[0], Expression::ValOffset(Offset::Inc(1))));
    assert!(matches!(e[1], Expression::ValOffset(Offset::Dec(1))));
    assert!(matches!(e[2], Expression::ValOffset(Offset::Inc(1))));
}

#[test]
fn runs_inside_loops_merge() {
    let e = parse("[--.]++").unwrap();
    assert_eq!(e.len(), 2);
    match &e[0] {
        Expression::Loop(body) => {
            assert_eq!(body.len(), 2);
            assert!(matches!(body[0], Expression::ValOffset(Offset::Dec(2))));
            assert!(matches!(body[1], Expression::Output));
        }
        _ => panic!("expected a loop"),
    }
    assert!(matches!(e[1], Expression::ValOffset(Offset::Inc(2))));
}

#[test]
fn tokens_are_numbered_without_whitespace() {
    let t = tokenize(" >\t<\n+ - , . [ ] x");
    assert_eq!(
        t,
        vec![
            Token::Forward,
            Token::Backward,
            Token::Inc,
            Token::Dec,
            Token::Input,
            Token::Output,
            Token::LoopStart,
            Token::LoopEnd,
            Token::Unknown(8),
        ]
    );
    assert!(tokenize(" \r\n\t").is_empty());
}

#[test]
fn countdown_loop_runs_value_times() {
    let mut io = Queue::new(vec![]);
    assert!(run_bounded("+++++[-].", &mut io, 5).is_ok());
    assert_eq!(io.outputs, vec![0]);
    let mut io = Queue::new(vec![]);
    assert!(matches!(run_bounded("+++++[-].", &mut io, 4), Err(Error::LoopLimit)));
    assert!(io.outputs.is_empty());
}

#[test]
fn counting_loop_moves_value() {
    let mut io = Queue::new(vec![]);
    assert!(run("+++++++[->+<]>.<.", &mut io).is_ok());
    assert_eq!(io.outputs, vec![7, 0]);
}

#[test]
fn cancelling_pairs_change_nothing() {
    let mut io = Queue::new(vec![]);
    assert!(run("", &mut io).is_ok());
    assert!(io.outputs.is_empty());
    let mut io = Queue::new(vec![]);
    assert!(run("+--+><-+.>.", &mut io).is_ok());
    assert_eq!(io.outputs, vec![0, 0]);
    let mut io = Queue::new(vec![]);
    assert!(run("+++>+++-<>-+><.<.", &mut io).is_ok());
    assert_eq!(io.outputs, vec![2, 3]);
    let mut io = Queue::new(vec![]);
    assert!(matches!(run("<>", &mut io), Err(Error::OutOfBounds)));
}

#[test]
fn negative_cell_stops_loop() {
    let mut io = Queue::new(vec![]);
    assert!(run("-[+].", &mut io).is_ok());
    assert_eq!(io.outputs, vec![-1]);
}

#[test]
fn pointer_below_zero_is_out_of_bounds() {
    let mut io = Queue::new(vec![]);
    assert!(matches!(run("<", &mut io), Err(Error::OutOfBounds)));
}

#[test]
fn pointer_past_tape_is_out_of_bounds_when_used() {
    let moves = ">".repeat(TAPE_SIZE);
    let mut io = Queue::new(vec![]);
    assert!(run(&moves, &mut io).is_ok());
    let mut io = Queue::new(vec![]);
    assert!(matches!(run(&format!("{}<.", moves), &mut io), Ok(())));
    assert_eq!(io.outputs, vec![0]);
    let mut io = Queue::new(vec![]);
    assert!(matches!(run(&format!("{}.", moves), &mut io), Err(Error::OutOfBounds)));
    assert!(io.outputs.is_empty());
}

#[test]
fn cell_overflow_is_reported() {
    let mut io = Queue::new(vec![i32::MAX]);
    assert!(matches!(run(",+", &mut io), Err(Error::Overflow)));
    let mut io = Queue::new(vec![i32::MIN]);
    assert!(matches!(run(",-", &mut io), Err(Error::Overflow)));
    let mut io = Queue::new(vec![i32::MAX]);
    assert!(run(",-.", &mut io).is_ok());
    assert_eq!(io.outputs, vec![i32::MAX - 1]);
}

#[test]
fn input_failure_is_passed_through() {
    let mut io = Queue::new(vec![]);
    assert!(matches!(run("+.,", &mut io), Err(Error::IO("input exhausted"))));
    assert_eq!(io.outputs, vec![1]);
}

#[test]
fn output_failure_is_passed_through() {
    let mut io = Queue::new(vec![]);
    io.fail_output = true;
    assert!(matches!(run("+.+", &mut io), Err(Error::IO("output closed"))));
}

#[test]
fn parser_error_converts() {
    let e: Error<()> = Error::from(parser::Error::InvalidInput(4));
    assert!(matches!(e, Error::Parser(parser::Error::InvalidInput(4))));
}

#[test]
fn buffer_operations() {
    let mut b = Buffer::new(3);
    assert!(b.is_in_bounds());
    assert_eq!(b.read(), 0);
    b.offset_val(Offset::Inc(5));
    b.offset_val(Offset::Dec(2));
    assert_eq!(b.read(), 3);
    b.offset_ptr(Offset::Inc(2));
    assert_eq!(b.pointer(), 2);
    b.write(-7);
    assert_eq!(b.read(), -7);
    b.offset_ptr(Offset::Dec(2));
    assert_eq!(b.read(), 3);
    b.offset_ptr(Offset::Inc(1));
    b.offset_ptr(Offset::Inc(2));
    assert!(!b.is_in_bounds());
}

#[test]
fn error_messages() {
    assert_eq!(parser::Error::InvalidInput(0).message(), "invalid input at 0");
    assert_eq!(parser::Error::InvalidInput(1207).message(), "invalid input at 1207");
    assert_eq!(parser::Error::LoopNotCompatible.message(), "loop not compatible");
}

#[test]
fn loop_body_runs_input_value_times() {
    let mut io = Queue::new(vec![3]);
    assert!(run(",[.-]", &mut io).is_ok());
    assert_eq!(io.next, 1);
    assert_eq!(io.outputs, vec![3, 2, 1]);
}

#[test]
fn failed_input_stops_before_output() {
    let mut io = Queue::new(vec![]);
    assert!(matches!(run(",.", &mut io), Err(Error::IO("input exhausted"))));
    assert!(io.outputs.is_empty());
}

#[test]
fn no_io_program_makes_no_request() {
    let mut io = Queue::new(vec![5]);
    assert!(run("+-><-+", &mut io).is_ok());
    assert_eq!(io.next, 0);
    assert!(io.outputs.is_empty());
}
