use brainfuck::{relative_target, Vm, VmError};

fn vm(code: &str, input: &[u8]) -> Vm {
    Vm::new(code.as_bytes().to_vec(), input.to_vec())
}

#[test]
fn new_starts_before_the_first_instruction() {
    let m = vm("+.", b"x");
    assert_eq!(m.pc(), 0);
    assert_eq!(m.cell(), 0);
    assert!(m.output().is_empty());
}

#[test]
fn relative_target_adds_and_subtracts() {
    assert_eq!(relative_target(5, 3), Ok(8));
    assert_eq!(relative_target(5, -3), Ok(2));
    assert_eq!(relative_target(5, -5), Ok(0));
    assert_eq!(relative_target(0, 0), Ok(0));
    assert_eq!(relative_target(usize::MAX - 1, 1), Ok(usize::MAX));
}

#[test]
fn relative_target_reports_overflow() {
    assert_eq!(relative_target(usize::MAX, 1), Err(VmError::PCOverflow));
    assert_eq!(relative_target(usize::MAX - 10, i32::MAX), Err(VmError::PCOverflow));
}

#[test]
fn relative_target_reports_underflow() {
    assert_eq!(relative_target(0, -1), Err(VmError::PCUnderflow));
    assert_eq!(relative_target(4, -5), Err(VmError::PCUnderflow));
    assert_eq!(relative_target(0, i32::MIN), Err(VmError::PCUnderflow));
}

#[test]
fn relative_target_takes_the_smallest_offset() {
    let back = 1usize << 31;
    assert_eq!(relative_target(back, i32::MIN), Ok(0));
    assert_eq!(relative_target(back + 7, i32::MIN), Ok(7));
}

#[test]
fn jump_relative_moves_the_program_counter() {
    let mut m = vm("", b"");
    assert_eq!(m.jump_relative(7), Ok(()));
    assert_eq!(m.pc(), 7);
    assert_eq!(m.jump_relative(-3), Ok(()));
    assert_eq!(m.pc(), 4);
}

#[test]
fn jump_relative_below_zero_changes_nothing() {
    let mut m = vm("", b"");
    assert_eq!(m.jump_relative(2), Ok(()));
    assert_eq!(m.jump_relative(-3), Err(VmError::PCUnderflow));
    assert_eq!(m.pc(), 2);
}

#[test]
fn get_instruction_reads_at_the_program_counter() {
    let mut m = vm("+-", b"");
    assert_eq!(m.get_instruction(), Ok(b'+'));
    assert_eq!(m.jump_relative(1), Ok(()));
    assert_eq!(m.get_instruction(), Ok(b'-'));
}

#[test]
fn get_instruction_past_the_end_is_out_of_scope() {
    let mut m = vm("+-", b"");
    assert_eq!(m.jump_relative(2), Ok(()));
    assert_eq!(m.get_instruction(), Err(VmError::PCOutOfScope));
    assert_eq!(vm("", b"").get_instruction(), Err(VmError::PCOutOfScope));
}

#[test]
fn data_pointer_moves_keep_the_cells() {
    let mut m = vm("+", b"");
    assert_eq!(m.step(), Ok(()));
    assert_eq!(m.cell(), 1);
    m.decrement_data_ptr();
    assert_eq!(m.cell(), 0);
    m.increment_data_ptr();
    assert_eq!(m.cell(), 1);
    m.increment_data_ptr();
    assert_eq!(m.cell(), 0);
    m.decrement_data_ptr();
    assert_eq!(m.cell(), 1);
}

#[test]
fn step_executes_one_instruction() {
    let mut m = vm("+.>", b"");
    assert_eq!(m.step(), Ok(()));
    assert_eq!((m.pc(), m.cell()), (1, 1));
    assert_eq!(m.step(), Ok(()));
    assert_eq!(m.pc(), 2);
    assert_eq!(m.output(), &vec![1]);
    assert_eq!(m.step(), Ok(()));
    assert_eq!((m.pc(), m.cell()), (3, 0));
}

#[test]
fn step_past_the_end_is_out_of_scope() {
    let mut m = vm("+", b"");
    assert_eq!(m.step(), Ok(()));
    assert_eq!(m.step(), Err(VmError::PCOutOfScope));
    assert_eq!(m.step(), Err(VmError::PCOutOfScope));
    assert_eq!((m.pc(), m.cell()), (1, 1));
}

#[test]
fn step_reads_input_then_zero() {
    let mut m = vm(",,", &[7]);
    assert_eq!(m.step(), Ok(()));
    assert_eq!(m.cell(), 7);
    assert_eq!(m.step(), Ok(()));
    assert_eq!(m.cell(), 0);
}

#[test]
fn cond_jump_forward_goes_to_the_matching_bracket() {
    let mut m = vm("[+[-]+]+", b"");
    assert_eq!(m.cond_jump_forward(), Ok(()));
    assert_eq!(m.pc(), 6);
}

#[test]
fn cond_jump_forward_stays_on_a_non_zero_cell() {
    let mut m = vm("+[-]", b"");
    assert_eq!(m.step(), Ok(()));
    assert_eq!(m.cond_jump_forward(), Ok(()));
    assert_eq!(m.pc(), 1);
    assert_eq!(m.step(), Ok(()));
    assert_eq!(m.pc(), 2);
}

#[test]
fn cond_jump_forward_without_a_match_changes_nothing() {
    let mut m = vm("[[]+", b"");
    assert_eq!(m.cond_jump_forward(), Err(VmError::UnmatchedForwardJump));
    assert_eq!(m.pc(), 0);
}

#[test]
fn jump_backward_goes_before_the_matching_bracket() {
    let mut m = vm("+[[-]+]", b"");
    assert_eq!(m.jump_relative(6), Ok(()));
    assert_eq!(m.jump_backward(), Ok(()));
    assert_eq!(m.pc(), 0);
    let mut inner = vm("+[[-]+]", b"");
    assert_eq!(inner.jump_relative(4), Ok(()));
    assert_eq!(inner.jump_backward(), Ok(()));
    assert_eq!(inner.pc(), 1);
}

#[test]
fn jump_backward_without_a_match_changes_nothing() {
    let mut m = vm("+[]]", b"");
    assert_eq!(m.jump_relative(3), Ok(()));
    assert_eq!(m.jump_backward(), Err(VmError::UnmatchedBackwardJump));
    assert_eq!(m.pc(), 3);
    let mut first = vm("]", b"");
    assert_eq!(first.jump_backward(), Err(VmError::UnmatchedBackwardJump));
    assert_eq!(first.pc(), 0);
}

#[test]
fn jump_backward_to_the_first_instruction_underflows() {
    let mut m = vm("[]", b"");
    assert_eq!(m.jump_relative(1), Ok(()));
    assert_eq!(m.jump_backward(), Err(VmError::PCUnderflow));
    assert_eq!(m.pc(), 1);
}

#[test]
fn jump_to_matching_instruction_scans_forward() {
    let mut m = vm("a(b(c)d)e)f", b"");
    assert_eq!(m.jump_to_matching_instruction(b'(', b')', false), Ok(()));
    assert_eq!(m.pc(), 9);
}

#[test]
fn jump_to_matching_instruction_scans_backward() {
    let mut m = vm("a(b(c)d(e", b"");
    assert_eq!(m.jump_relative(8), Ok(()));
    assert_eq!(m.jump_to_matching_instruction(b')', b'(', true), Ok(()));
    assert_eq!(m.pc(), 7);
    assert_eq!(m.jump_relative(-1), Ok(()));
    assert_eq!(m.jump_to_matching_instruction(b')', b'(', true), Ok(()));
    assert_eq!(m.pc(), 1);
}

#[test]
fn jump_to_matching_instruction_stays_on_a_block_end() {
    let mut m = vm(")", b"");
    assert_eq!(m.jump_to_matching_instruction(b'(', b')', false), Ok(()));
    assert_eq!(m.pc(), 0);
}

#[test]
fn jump_to_matching_instruction_without_a_match_changes_nothing() {
    let mut m = vm("(()", b"");
    assert_eq!(m.jump_relative(1), Ok(()));
    assert_eq!(m.jump_to_matching_instruction(b'(', b')', false), Err(()));
    assert_eq!(m.pc(), 1);
    let mut back = vm("))(", b"");
    assert_eq!(back.jump_relative(1), Ok(()));
    assert_eq!(back.jump_to_matching_instruction(b')', b'(', true), Err(()));
    assert_eq!(back.pc(), 1);
}

#[test]
fn execute_leaves_the_output_in_place_after_a_fault() {
    let mut m = vm("+.+.]+.", b"");
    assert_eq!(m.execute(), Err(VmError::UnmatchedBackwardJump));
    assert_eq!(m.output(), &vec![1, 2]);
    assert_eq!(m.pc(), 4);
}

#[test]
fn execute_again_gives_the_same_fault() {
    let mut m = vm("+.-[", b"");
    assert_eq!(m.execute(), Err(VmError::UnmatchedForwardJump));
    assert_eq!(m.execute(), Err(VmError::UnmatchedForwardJump));
    assert_eq!(m.output(), &vec![1]);
}

#[test]
fn execute_again_after_the_end_gives_the_same_output() {
    let mut m = vm("+.", b"");
    assert_eq!(m.execute(), Ok(&vec![1]));
    assert_eq!(m.execute(), Ok(&vec![1]));
    assert_eq!(m.pc(), 2);
}

#[test]
fn execute_within_stops_at_the_limit() {
    let mut m = vm("+[]", b"");
    assert_eq!(m.execute_within(1000), None);
    assert_eq!(m.cell(), 1);
    let mut n = vm("+.+.+.", b"");
    assert_eq!(n.execute_within(4), None);
    assert_eq!(n.output(), &vec![1, 2]);
    assert_eq!(n.pc(), 4);
}

#[test]
fn execute_within_of_nothing_does_nothing() {
    let mut m = vm("", b"");
    assert_eq!(m.execute_within(0), None);
    assert_eq!(m.execute_within(1), Some(Ok(&vec![])));
}

#[test]
fn execute_within_reports_the_end() {
    let mut m = vm("+.+.", b"");
    assert_eq!(m.execute_within(4), None);
    assert_eq!(m.execute_within(1), Some(Ok(&vec![1, 2])));
    let mut n = vm("+.+.", b"");
    assert_eq!(n.execute_within(5), Some(Ok(&vec![1, 2])));
}

#[test]
fn execute_within_reports_a_fault() {
    let mut m = vm("+.]", b"");
    assert_eq!(m.execute_within(2), None);
    assert_eq!(m.execute_within(1), Some(Err(VmError::UnmatchedBackwardJump)));
    assert_eq!(m.output(), &vec![1]);
}

#[test]
fn execute_within_can_be_continued() {
    let mut m = vm("++[-.]", b"");
    assert_eq!(m.execute_within(3), None);
    assert_eq!(m.execute(), Ok(&vec![1, 0]));
}

#[test]
fn message_names_each_error() {
    assert_eq!(VmError::PCOutOfScope.message(), "Vm Error: PC out of scope.");
    assert_eq!(VmError::PCOverflow.message(), "Vm Error: PC overflow.");
    assert_eq!(VmError::PCUnderflow.message(), "Vm Error: PC underflow.");
    assert_eq!(VmError::UnmatchedForwardJump.message(), "Vm Error: Unmatched forward jump.");
    assert_eq!(VmError::UnmatchedBackwardJump.message(), "Vm Error: Unmatched backward jump.");
}
