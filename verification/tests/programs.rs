use brainfuck::{Vm, VmError};

fn run(code: &str, input: &[u8]) -> Result<Vec<u8>, VmError> {
    let mut vm = Vm::new(code.as_bytes().to_vec(), input.to_vec());
    vm.execute().map(|out| out.clone())
}

#[test]
fn empty_program_and_empty_input_give_empty_output() {
    assert_eq!(run("", b""), Ok(vec![]));
}

#[test]
fn empty_program_ignores_its_input() {
    assert_eq!(run("", b"abc"), Ok(vec![]));
}

#[test]
fn echo_reproduces_the_input() {
    assert_eq!(run(",.,.,.", b"abc"), Ok(b"abc".to_vec()));
}

#[test]
fn echo_reads_no_more_than_it_is_asked_for() {
    assert_eq!(run(",.,.", b"abcdef"), Ok(b"ab".to_vec()));
}

#[test]
fn echo_gives_zero_once_the_input_is_used_up() {
    assert_eq!(run(",.,.,.,.", b"hi"), Ok(vec![b'h', b'i', 0, 0]));
}

#[test]
fn read_without_input_overwrites_the_cell_with_zero() {
    assert_eq!(run("+++,.", b""), Ok(vec![0]));
}

#[test]
fn input_is_read_front_to_back() {
    assert_eq!(run(",>,>,.<.<.", &[1, 2, 3]), Ok(vec![3, 2, 1]));
}

#[test]
fn increment_stores_the_next_value() {
    assert_eq!(run("+.", b""), Ok(vec![1]));
    assert_eq!(run("+++.", b""), Ok(vec![3]));
}

#[test]
fn decrement_stores_the_previous_value() {
    assert_eq!(run("+++-.", b""), Ok(vec![2]));
}

#[test]
fn increment_wraps_after_256_steps() {
    let mut code = "+".repeat(256);
    code.push('.');
    assert_eq!(run(&code, b""), Ok(vec![0]));
}

#[test]
fn increment_reaches_255_before_it_wraps() {
    let mut code = "+".repeat(255);
    code.push('.');
    assert_eq!(run(&code, b""), Ok(vec![255]));
}

#[test]
fn decrement_of_zero_gives_255() {
    assert_eq!(run("-.", b""), Ok(vec![255]));
}

#[test]
fn cell_is_written_on_each_dot() {
    assert_eq!(run("+.+.+.", b""), Ok(vec![1, 2, 3]));
}

#[test]
fn left_then_right_past_the_origin_finds_a_fresh_cell() {
    for k in 0..6 {
        let code = format!("{}{}.", "<".repeat(k), ">".repeat(k));
        assert_eq!(run(&code, b""), Ok(vec![0]));
    }
}

#[test]
fn right_then_left_finds_the_origin_again() {
    assert_eq!(run("+++>>>>><<<<<.", b""), Ok(vec![3]));
}

#[test]
fn value_left_of_the_origin_is_kept() {
    assert_eq!(run("<+++++>.<.", b""), Ok(vec![0, 5]));
    assert_eq!(run("<<++>+>+++.<.<.>>.", b""), Ok(vec![3, 1, 2, 3]));
}

#[test]
fn value_read_left_of_the_origin_survives_a_trip_to_the_right() {
    for k in 0..4 {
        for j in 0..4 {
            let code = format!("{},{}{}.", "<".repeat(k), ">".repeat(j), "<".repeat(j));
            assert_eq!(run(&code, &[7, 8]), Ok(vec![7]));
            assert_eq!(run(&code, b""), Ok(vec![0]));
        }
    }
}

#[test]
fn origin_keeps_its_value_while_the_tape_grows_to_the_left() {
    assert_eq!(run("++<<<+>>>.<<<.<.", b""), Ok(vec![2, 1, 0]));
}

#[test]
fn cells_on_both_sides_are_independent() {
    assert_eq!(run("+>++>+++<<<-<--.>.>.>.>.", b""), Ok(vec![254, 255, 1, 2, 3]));
}

#[test]
fn loop_counts_down_and_stops_at_zero() {
    assert_eq!(run("++[-.]", b""), Ok(vec![1, 0]));
}

#[test]
fn loop_on_a_zero_cell_is_skipped() {
    assert_eq!(run("[.]", b""), Ok(vec![]));
    assert_eq!(run("[+.]+.", b""), Ok(vec![1]));
}

#[test]
fn instruction_after_a_skipped_block_is_executed() {
    assert_eq!(run("[]+.", b""), Ok(vec![1]));
    assert_eq!(run("[-]+.+.", b""), Ok(vec![1, 2]));
}

#[test]
fn instruction_after_a_finished_loop_is_executed() {
    assert_eq!(run("+[-]+.", b""), Ok(vec![1]));
}

#[test]
fn transfer_loop_moves_the_value() {
    assert_eq!(run("+++[->+<]>.<.", b""), Ok(vec![3, 0]));
    assert_eq!(run("+[->+<]>.", b""), Ok(vec![1]));
}

#[test]
fn nested_loops_multiply() {
    assert_eq!(run("++[>+++[>+<-]<-]>>.", b""), Ok(vec![6]));
}

#[test]
fn skipped_block_with_nested_blocks_ends_at_the_outer_bracket() {
    assert_eq!(run("[[+.]+.]+.", b""), Ok(vec![1]));
    assert_eq!(run("[[][[]]+.]++.", b""), Ok(vec![2]));
}

#[test]
fn backward_jump_passes_over_nested_blocks() {
    assert_eq!(run("++[>[-]+[-]<-.]", b""), Ok(vec![1, 0]));
}

#[test]
fn unmatched_open_bracket_faults() {
    assert_eq!(run("[", b""), Err(VmError::UnmatchedForwardJump));
}

#[test]
fn unmatched_close_bracket_faults() {
    assert_eq!(run("]", b""), Err(VmError::UnmatchedBackwardJump));
}

#[test]
fn outer_open_bracket_without_a_match_faults() {
    assert_eq!(run("[[]", b""), Err(VmError::UnmatchedForwardJump));
}

#[test]
fn unmatched_close_bracket_after_a_loop_faults() {
    assert_eq!(run("+[-]]", b""), Err(VmError::UnmatchedBackwardJump));
    assert_eq!(run("+]", b""), Err(VmError::UnmatchedBackwardJump));
}

#[test]
fn unmatched_open_bracket_is_no_fault_while_the_cell_is_not_zero() {
    assert_eq!(run("+[.", b""), Ok(vec![1]));
}

#[test]
fn unmatched_open_bracket_faults_once_the_cell_is_zero() {
    assert_eq!(run("+.-[.", b""), Err(VmError::UnmatchedForwardJump));
}

#[test]
fn other_bytes_are_skipped() {
    assert_eq!(run("a + b\n+ c . \t d", b""), Ok(vec![2]));
    assert_eq!(run("hello", b""), Ok(vec![]));
}

#[test]
fn bracket_free_program_never_faults() {
    assert_eq!(run("+>-<,.<<.>>>>.", &[9]), Ok(vec![9, 0, 0]));
}

#[test]
fn hello_world() {
    let code = "++++++++[>++++[>++>+++>+++>+<<<<-]>+>+>->>+[<]<-]>>.>---.+++++++..+++.>>.<-.<.+++.------.--------.>>+.>++.";
    assert_eq!(run(code, b""), Ok(b"Hello World!\n".to_vec()));
}

#[test]
fn reverse_the_input() {
    assert_eq!(run(">,[>,]<[.<]", b"stressed"), Ok(b"desserts".to_vec()));
}
