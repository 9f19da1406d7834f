use brainrust::{parse, run, step, Op, RunError, State, TAPE_LEN};

fn exec(src: &[u8], input: &[u8], max_steps: u64) -> (Result<bool, RunError>, State) {
    let prog = parse(src).unwrap();
    let mut st = State::new(prog, input.to_vec());
    let r = run(&mut st, max_steps);
    (r, st)
}

#[test]
fn a_new_machine_is_zeroed() {
    let st = State::new(vec![Op::Incr], vec![7]);
    assert_eq!(st.i, 0);
    assert_eq!(st.p, 0);
    assert_eq!(st.taken, 0);
    assert_eq!(st.mem.len(), 30000);
    assert_eq!(TAPE_LEN, 30000);
    assert!(st.mem.iter().all(|c| *c == 0));
    assert!(st.output.is_empty());
    assert_eq!(st.input, vec![7]);
    assert_eq!(st.prog, vec![Op::Incr]);
}

#[test]
fn the_empty_program_halts_at_once() {
    let (r, st) = exec(b"", b"", 0);
    assert_eq!(r, Ok(true));
    assert_eq!(st.i, 0);
}

#[test]
fn step_moves_the_pointer() {
    let mut st = State::new(vec![Op::Next, Op::Next, Op::Prev], vec![]);
    assert_eq!(step(&mut st), Ok(()));
    assert_eq!((st.i, st.p), (1, 1));
    assert_eq!(step(&mut st), Ok(()));
    assert_eq!((st.i, st.p), (2, 2));
    assert_eq!(step(&mut st), Ok(()));
    assert_eq!((st.i, st.p), (3, 1));
}

#[test]
fn step_changes_only_the_current_cell() {
    let mut st = State::new(vec![Op::Next, Op::Incr, Op::Incr, Op::Decr], vec![]);
    let mut k: u32 = 0;
    while k < 4 {
        assert_eq!(step(&mut st), Ok(()));
        k += 1;
    }
    assert_eq!(st.mem[1], 1);
    assert_eq!(st.mem[0], 0);
    assert_eq!(st.mem[2], 0);
    assert_eq!(st.i, 4);
}

#[test]
fn decrement_of_zero_wraps_to_255() {
    let (r, st) = exec(b"-.", b"", 10);
    assert_eq!(r, Ok(true));
    assert_eq!(st.output, vec![255]);
}

#[test]
fn increment_of_255_wraps_to_zero() {
    let (r, st) = exec(b"-+.", b"", 10);
    assert_eq!(r, Ok(true));
    assert_eq!(st.output, vec![0]);
}

#[test]
fn increments_256_times_return_to_the_start() {
    let mut src: Vec<u8> = b"+++++.".to_vec();
    let mut k: u32 = 0;
    while k < 256 {
        src.push(b'+');
        k += 1;
    }
    src.push(b'.');
    let (r, st) = exec(&src, b"", 1000);
    assert_eq!(r, Ok(true));
    assert_eq!(st.output, vec![5, 5]);
}

#[test]
fn increment_then_decrement_is_no_change() {
    let (r, st) = exec(b",+-.-+.", &[200], 100);
    assert_eq!(r, Ok(true));
    assert_eq!(st.output, vec![200, 200]);
}

#[test]
fn loop_start_on_zero_jumps_past_the_loop() {
    let mut st = State::new(parse(b"[+]+").unwrap(), vec![]);
    assert_eq!(step(&mut st), Ok(()));
    assert_eq!(st.i, 3);
    assert_eq!(st.mem[0], 0);
}

#[test]
fn loop_start_on_nonzero_enters_the_loop() {
    let mut st = State::new(parse(b"+[-]").unwrap(), vec![]);
    assert_eq!(step(&mut st), Ok(()));
    assert_eq!(step(&mut st), Ok(()));
    assert_eq!(st.i, 2);
}

#[test]
fn loop_end_on_nonzero_jumps_back_to_the_loop_start() {
    let mut st = State::new(parse(b"++[-]").unwrap(), vec![]);
    let mut k: u32 = 0;
    while k < 5 {
        assert_eq!(step(&mut st), Ok(()));
        k += 1;
    }
    assert_eq!(st.mem[0], 1);
    assert_eq!(st.i, 2);
}

#[test]
fn loop_end_on_zero_falls_through() {
    let mut st = State::new(parse(b"+[-]").unwrap(), vec![]);
    let mut k: u32 = 0;
    while k < 4 {
        assert_eq!(step(&mut st), Ok(()));
        k += 1;
    }
    assert_eq!(st.mem[0], 0);
    assert_eq!(st.i, 4);
}

#[test]
fn moving_left_of_the_tape_is_an_error() {
    let (r, st) = exec(b"+<+", b"", 10);
    assert_eq!(r, Err(RunError::OffTape));
    assert_eq!((st.i, st.p), (1, 0));
    assert_eq!(st.mem[0], 1);
}

#[test]
fn the_last_cell_can_be_reached() {
    let src: Vec<u8> = vec![b'>'; 29999];
    let (r, st) = exec(&src, b"", 100000);
    assert_eq!(r, Ok(true));
    assert_eq!(st.p, 29999);
}

#[test]
fn moving_right_of_the_tape_is_an_error() {
    let src: Vec<u8> = vec![b'>'; 30000];
    let (r, st) = exec(&src, b"", 100000);
    assert_eq!(r, Err(RunError::OffTape));
    assert_eq!((st.i, st.p), (29999, 29999));
}

#[test]
fn a_faulting_step_leaves_the_machine_as_it_was() {
    let mut st = State::new(vec![Op::Eat], vec![]);
    assert_eq!(step(&mut st), Err(RunError::InputExhausted));
    assert_eq!((st.i, st.p, st.taken), (0, 0, 0));
    assert!(st.output.is_empty());
    assert_eq!(st.mem[0], 0);
}

#[test]
fn run_stops_when_the_fuel_is_spent() {
    let (r, st) = exec(b"+[]", b"", 1000);
    assert_eq!(r, Ok(false));
    assert_eq!(st.mem[0], 1);
    assert!(st.i < 3);
}

#[test]
fn run_counts_every_instruction() {
    let (r, st) = exec(b"+++++", b"", 3);
    assert_eq!(r, Ok(false));
    assert_eq!(st.i, 3);
    assert_eq!(st.mem[0], 3);
}

#[test]
fn run_with_just_enough_fuel_halts() {
    let (r, st) = exec(b"+++++", b"", 5);
    assert_eq!(r, Ok(true));
    assert_eq!(st.mem[0], 5);
}

#[test]
fn running_in_instalments_is_running_once() {
    let src = b"++++[>+++[>++<-]<-]>>.";
    let (once, whole) = exec(src, b"", 10000);
    let mut st = State::new(parse(src).unwrap(), vec![]);
    assert_eq!(run(&mut st, 7), Ok(false));
    assert_eq!(run(&mut st, 20), Ok(false));
    let rest = run(&mut st, 10000 - 27);
    assert_eq!(rest, once);
    assert_eq!(once, Ok(true));
    assert_eq!(st.output, whole.output);
    assert_eq!(st.output, vec![24]);
    assert_eq!(st.mem, whole.mem);
    assert_eq!((st.i, st.p), (whole.i, whole.p));
}

#[test]
fn input_is_read_in_order() {
    let (r, st) = exec(b",>,>,<<.>.>.", &[1, 2, 3, 4], 100);
    assert_eq!(r, Ok(true));
    assert_eq!(st.output, vec![1, 2, 3]);
    assert_eq!(st.taken, 3);
}

#[test]
fn feeding_input_lets_a_starved_run_go_on() {
    let mut st = State::new(parse(b",.,.").unwrap(), vec![10]);
    assert_eq!(run(&mut st, 100), Err(RunError::InputExhausted));
    assert_eq!(st.output, vec![10]);
    assert_eq!(st.i, 2);
    st.feed(&[20, 30]);
    assert_eq!(run(&mut st, 100), Ok(true));
    assert_eq!(st.output, vec![10, 20]);
    assert_eq!(st.taken, 2);
}

#[test]
fn taking_the_output_empties_it() {
    let mut st = State::new(parse(b"+.+.").unwrap(), vec![]);
    assert_eq!(run(&mut st, 2), Ok(false));
    assert_eq!(st.take_output(), vec![1]);
    assert!(st.output.is_empty());
    assert_eq!(run(&mut st, 2), Ok(true));
    assert_eq!(st.take_output(), vec![2]);
    assert_eq!(st.mem[0], 2);
}

#[test]
fn a_target_past_the_end_halts_the_run() {
    let mut st = State::new(vec![Op::Loop(9), Op::Incr], vec![]);
    assert_eq!(run(&mut st, 10), Ok(true));
    assert_eq!(st.i, 9);
    assert_eq!(st.mem[0], 0);
}

#[test]
fn hello() {
    let src = b"++++++++[>++++[>++>+++>+++>+<<<<-]>+>+>->>+[<]<-]>>.>---.+++++++..+++.>>.<-.<.+++.------.--------.>>+.>++.";
    let (r, st) = exec(src, b"", 100000);
    assert_eq!(r, Ok(true));
    assert_eq!(st.output, b"Hello World!\n".to_vec());
}
