use enaa::assembler::{assemble, Insn};
use enaa::decrypter::program;
use enaa::vm::{run, Opcode, Vm, VmError};

/// What the decrypter is to write for `cipher`: each letter moved forward by
/// a key that starts at 4, grows by one with every letter and goes from 25
/// back to 0, wrapping behind 'z'.
fn expected_plain(cipher: &str) -> String {
    let mut key: u32 = 4;
    let mut plain = String::new();
    for ch in cipher.chars() {
        let mut code = ch as u32 + key;
        if code > 'z' as u32 {
            code -= 26;
        }
        plain.push(char::from_u32(code).unwrap());
        key = if key + 1 > 25 { 0 } else { key + 1 };
    }
    plain
}

#[test]
fn push_out_exit_writes_one_character() {
    let program = [8, 97, 1, 7];
    assert_eq!(run(&program, ""), Ok("a".to_string()));
    assert_eq!(run(&program, "anything at all"), Ok("a".to_string()));
}

#[test]
fn assembled_push_out_exit_writes_one_character() {
    let source = [
        Insn::new(Opcode::Push).set_value(97),
        Insn::new(Opcode::Out),
        Insn::new(Opcode::Exit),
    ];
    let program = assemble(&source).unwrap();
    assert_eq!(run(&program, "xyz"), Ok("a".to_string()));
}

#[test]
fn exit_alone_writes_nothing() {
    assert_eq!(run(&[7], "ignored"), Ok(String::new()));
}

#[test]
fn dup_on_empty_stack_underflows() {
    let program = assemble(&[Insn::new(Opcode::Dup), Insn::new(Opcode::Exit)]).unwrap();
    assert_eq!(run(&program, ""), Err(VmError::StackUnderflow));
    assert_eq!(run(&program, "some input"), Err(VmError::StackUnderflow));
}

#[test]
fn every_popping_opcode_underflows_on_empty_stack() {
    for opcode in [1u8, 2, 3, 4, 12] {
        assert_eq!(run(&[opcode, 7], "x"), Err(VmError::StackUnderflow));
    }
    for opcode in [5u8, 6, 10, 13, 14] {
        assert_eq!(run(&[opcode, 0, 7], "x"), Err(VmError::StackUnderflow));
    }
}

#[test]
fn two_word_opcodes_underflow_on_one_word() {
    for opcode in [3u8, 4] {
        assert_eq!(run(&[8, 1, opcode, 7], ""), Err(VmError::StackUnderflow));
    }
    for opcode in [6u8, 10, 13, 14] {
        assert_eq!(run(&[8, 1, opcode, 0, 7], ""), Err(VmError::StackUnderflow));
    }
}

#[test]
fn byte_fifteen_is_no_opcode() {
    assert_eq!(run(&[15], ""), Err(VmError::InvalidOpcode(15)));
    assert_eq!(run(&[8, 97, 15, 1, 7], "abc"), Err(VmError::InvalidOpcode(15)));
}

#[test]
fn invalid_opcode_after_output_still_fails() {
    assert_eq!(run(&[8, 97, 1, 200], ""), Err(VmError::InvalidOpcode(200)));
}

#[test]
fn operand_byte_fifteen_is_data() {
    assert_eq!(run(&[8, 15, 8, 50, 3, 1, 7], ""), Ok("A".to_string()));
}

#[test]
fn blt_taken_lands_on_target() {
    let source = [
        Insn::new(Opcode::Push).set_value(3),
        Insn::new(Opcode::Push).set_value(5),
        Insn::new(Opcode::Blt).set_target("target"),
        Insn::new(Opcode::Push).set_value(0),
        Insn::new(Opcode::Exit),
        Insn::new(Opcode::Push).set_value(1).set_label("target"),
        Insn::new(Opcode::Exit),
    ];
    let program = assemble(&source).unwrap();
    assert_eq!(program, vec![8, 3, 8, 5, 6, 9, 8, 0, 7, 8, 1, 7]);
    let mut vm = Vm::new(&program, "");
    assert_eq!(vm.run(), Ok(String::new()));
    assert_eq!(vm.stack(), &[1]);
    assert_eq!(vm.pc(), 11);
}

#[test]
fn blt_not_taken_skips_the_operand() {
    let source = [
        Insn::new(Opcode::Push).set_value(5),
        Insn::new(Opcode::Push).set_value(3),
        Insn::new(Opcode::Blt).set_target("target"),
        Insn::new(Opcode::Push).set_value(0),
        Insn::new(Opcode::Exit),
        Insn::new(Opcode::Push).set_value(1).set_label("target"),
        Insn::new(Opcode::Exit),
    ];
    let program = assemble(&source).unwrap();
    let mut vm = Vm::new(&program, "");
    assert_eq!(vm.run(), Ok(String::new()));
    assert_eq!(vm.stack(), &[0]);
    assert_eq!(vm.pc(), 8);
}

/// Pushes `x` and `y`, branches with `opcode`, and writes 'T' if the branch
/// was taken, 'F' if not.
fn branch_outcome(opcode: Opcode, x: u32, y: u32) -> String {
    let source = [
        Insn::new(Opcode::Push).set_value(x),
        Insn::new(Opcode::Push).set_value(y),
        Insn::new(opcode).set_target("taken"),
        Insn::new(Opcode::Push).set_value('F' as u32),
        Insn::new(Opcode::Out),
        Insn::new(Opcode::Exit),
        Insn::new(Opcode::Push).set_value('T' as u32).set_label("taken"),
        Insn::new(Opcode::Out),
        Insn::new(Opcode::Exit),
    ];
    run(&assemble(&source).unwrap(), "").unwrap()
}

#[test]
fn blt_compares_second_with_top() {
    assert_eq!(branch_outcome(Opcode::Blt, 3, 5), "T");
    assert_eq!(branch_outcome(Opcode::Blt, 5, 5), "F");
    assert_eq!(branch_outcome(Opcode::Blt, 5, 3), "F");
}

#[test]
fn bgt_compares_second_with_top() {
    assert_eq!(branch_outcome(Opcode::Bgt, 3, 5), "F");
    assert_eq!(branch_outcome(Opcode::Bgt, 5, 5), "F");
    assert_eq!(branch_outcome(Opcode::Bgt, 5, 3), "T");
}

#[test]
fn ble_compares_second_with_top() {
    assert_eq!(branch_outcome(Opcode::Ble, 3, 5), "T");
    assert_eq!(branch_outcome(Opcode::Ble, 5, 5), "T");
    assert_eq!(branch_outcome(Opcode::Ble, 5, 3), "F");
}

#[test]
fn beq_compares_second_with_top() {
    assert_eq!(branch_outcome(Opcode::Beq, 3, 5), "F");
    assert_eq!(branch_outcome(Opcode::Beq, 5, 5), "T");
    assert_eq!(branch_outcome(Opcode::Beq, 5, 3), "F");
}

#[test]
fn bne_jumps_on_nonzero_top() {
    let outcome = |value: u32| {
        let source = [
            Insn::new(Opcode::Push).set_value(value),
            Insn::new(Opcode::Bne).set_target("taken"),
            Insn::new(Opcode::Push).set_value('F' as u32),
            Insn::new(Opcode::Out),
            Insn::new(Opcode::Exit),
            Insn::new(Opcode::Push).set_value('T' as u32).set_label("taken"),
            Insn::new(Opcode::Out),
            Insn::new(Opcode::Exit),
        ];
        run(&assemble(&source).unwrap(), "").unwrap()
    };
    assert_eq!(outcome(0), "F");
    assert_eq!(outcome(1), "T");
    assert_eq!(outcome(255), "T");
}

#[test]
fn bne_takes_one_word_only() {
    let program = [8, 65, 8, 1, 5, 6, 1, 7];
    assert_eq!(run(&program, ""), Ok("A".to_string()));
}

#[test]
fn jmp_is_unconditional() {
    let program = [9, 5, 8, 66, 1, 8, 65, 1, 7];
    assert_eq!(run(&program, ""), Ok("A".to_string()));
}

#[test]
fn in_reads_the_input_in_order() {
    let program = [0, 1, 0, 1, 0, 1, 7];
    assert_eq!(run(&program, "abcdef"), Ok("abc".to_string()));
}

#[test]
fn in_reads_characters_not_bytes() {
    let program = [0, 1, 0, 1, 7];
    assert_eq!(run(&program, "é€"), Ok("é€".to_string()));
    let mut vm = Vm::new(&[0, 7], "€");
    assert_eq!(vm.run(), Ok(String::new()));
    assert_eq!(vm.stack(), &[0x20AC]);
}

#[test]
fn in_pushes_zero_at_end_of_input() {
    let mut vm = Vm::new(&[0, 0, 0, 7], "a");
    assert_eq!(vm.run(), Ok(String::new()));
    assert_eq!(vm.stack(), &[97, 0, 0]);
}

#[test]
fn echo_stops_at_end_of_input() {
    let source = [
        Insn::new(Opcode::In).set_label("loop"),
        Insn::new(Opcode::Dup),
        Insn::new(Opcode::Bne).set_target("write"),
        Insn::new(Opcode::Exit),
        Insn::new(Opcode::Out).set_label("write"),
        Insn::new(Opcode::Jmp).set_target("loop"),
    ];
    let program = assemble(&source).unwrap();
    assert_eq!(run(&program, ""), Ok(String::new()));
    assert_eq!(run(&program, "hello, world"), Ok("hello, world".to_string()));
}

#[test]
fn dup_copies_the_top() {
    assert_eq!(run(&[8, 97, 2, 1, 1, 7], ""), Ok("aa".to_string()));
}

#[test]
fn add_and_sub_take_top_as_right_operand() {
    assert_eq!(run(&[8, 60, 8, 5, 3, 1, 7], ""), Ok("A".to_string()));
    assert_eq!(run(&[8, 70, 8, 5, 4, 1, 7], ""), Ok("A".to_string()));
}

#[test]
fn sub_wraps_below_zero() {
    let mut vm = Vm::new(&[8, 0, 8, 1, 4, 7], "");
    assert_eq!(vm.run(), Ok(String::new()));
    assert_eq!(vm.stack(), &[u32::MAX]);
}

#[test]
fn add_wraps_above_the_largest_word() {
    let program = [8, 0, 8, 1, 4, 8, 50, 3, 1, 7];
    assert_eq!(run(&program, ""), Ok("1".to_string()));
}

#[test]
fn out_rejects_a_word_that_is_no_character() {
    assert_eq!(run(&[8, 0, 8, 1, 4, 1, 7], ""), Err(VmError::InvalidCodePoint(u32::MAX)));
}

#[test]
fn out_rejects_a_surrogate() {
    // 216 words of 255 and one of 216 add up to 0xD7FF + 1 = 0xD800.
    let mut program: Vec<u8> = vec![8, 216];
    for _ in 0..216 {
        program.extend_from_slice(&[8, 255, 3]);
    }
    let mut last_scalar = program.clone();
    last_scalar.extend_from_slice(&[8, 1, 4, 1, 7]);
    assert_eq!(run(&last_scalar, ""), Ok("\u{D7FF}".to_string()));
    program.extend_from_slice(&[1, 7]);
    assert_eq!(run(&program, ""), Err(VmError::InvalidCodePoint(0xD800)));
}

#[test]
fn out_writes_character_zero() {
    assert_eq!(run(&[8, 0, 1, 7], ""), Ok("\0".to_string()));
}

#[test]
fn failed_out_leaves_the_machine_as_it_was() {
    let program = [8, 0, 8, 1, 4, 1, 7];
    let mut vm = Vm::new(&program, "");
    assert_eq!(vm.run(), Err(VmError::InvalidCodePoint(u32::MAX)));
    assert_eq!(vm.pc(), 5);
    assert_eq!(vm.stack(), &[u32::MAX]);
    assert_eq!(vm.output(), "");
}

#[test]
fn pusha_and_popa_move_through_the_register() {
    let mut vm = Vm::new(&[11, 8, 66, 12, 11, 11, 7], "");
    assert_eq!(vm.aux(), 0);
    assert_eq!(vm.run(), Ok(String::new()));
    assert_eq!(vm.aux(), 66);
    assert_eq!(vm.stack(), &[0, 66, 66]);
}

#[test]
fn empty_program_is_out_of_code() {
    assert_eq!(run(&[], ""), Err(VmError::OutOfCode));
}

#[test]
fn running_off_the_end_is_out_of_code() {
    assert_eq!(run(&[0], "a"), Err(VmError::OutOfCode));
    assert_eq!(run(&[8, 97, 1], ""), Err(VmError::OutOfCode));
}

#[test]
fn missing_operand_is_out_of_code() {
    assert_eq!(run(&[8], ""), Err(VmError::OutOfCode));
    assert_eq!(run(&[9], ""), Err(VmError::OutOfCode));
    assert_eq!(run(&[8, 1, 5], ""), Err(VmError::OutOfCode));
    assert_eq!(run(&[8, 1, 8, 2, 6], ""), Err(VmError::OutOfCode));
}

#[test]
fn underflow_is_reported_before_a_missing_operand() {
    assert_eq!(run(&[5], ""), Err(VmError::StackUnderflow));
    assert_eq!(run(&[8, 1, 14], ""), Err(VmError::StackUnderflow));
}

#[test]
fn jump_outside_the_code_is_out_of_code() {
    assert_eq!(run(&[9, 200], ""), Err(VmError::OutOfCode));
}

#[test]
fn endless_loop_runs_out_of_steps() {
    let program = [9, 0];
    let mut vm = Vm::new(&program, "");
    assert_eq!(vm.run_bounded(1000), Err(VmError::StepLimit));
    assert_eq!(vm.pc(), 0);
}

#[test]
fn step_budget_counts_the_exit() {
    let program = [8, 97, 1, 7];
    assert_eq!(Vm::new(&program, "").run_bounded(0), Err(VmError::StepLimit));
    assert_eq!(Vm::new(&program, "").run_bounded(2), Err(VmError::StepLimit));
    assert_eq!(Vm::new(&program, "").run_bounded(3), Ok("a".to_string()));
    assert_eq!(Vm::new(&program, "").run_bounded(4), Ok("a".to_string()));
    assert_eq!(Vm::new(&program, "").run_bounded(u128::MAX), Ok("a".to_string()));
}

#[test]
fn run_can_be_resumed_after_the_budget_ran_out() {
    let program = [8, 97, 1, 8, 98, 1, 7];
    let mut vm = Vm::new(&program, "");
    assert_eq!(vm.run_bounded(2), Err(VmError::StepLimit));
    assert_eq!(vm.output(), "a");
    assert_eq!(vm.pc(), 3);
    assert_eq!(vm.run_bounded(10), Ok("ab".to_string()));
}

#[test]
fn step_reports_exit_and_stays() {
    let program = [8, 7, 7];
    let mut vm = Vm::new(&program, "");
    assert_eq!(vm.step(), Ok(false));
    assert_eq!(vm.pc(), 2);
    assert_eq!(vm.stack(), &[7]);
    assert_eq!(vm.step(), Ok(true));
    assert_eq!(vm.pc(), 2);
    assert_eq!(vm.step(), Ok(true));
}

#[test]
fn push_and_pop_are_last_in_first_out() {
    let mut vm = Vm::new(&[7], "");
    assert_eq!(vm.pop(), Err(VmError::StackUnderflow));
    vm.push(1);
    vm.push(2);
    assert_eq!(vm.stack(), &[1, 2]);
    assert_eq!(vm.pop(), Ok(2));
    assert_eq!(vm.pop(), Ok(1));
    assert_eq!(vm.pop(), Err(VmError::StackUnderflow));
}

#[test]
fn branch_if_hands_second_then_top_to_the_test() {
    let program = [6, 9, 7];
    let mut vm = Vm::new(&program, "");
    vm.push(3);
    vm.push(5);
    let mut seen = (0, 0);
    assert_eq!(
        vm.branch_if(|x, y| {
            seen = (x, y);
            true
        }),
        Ok(())
    );
    assert_eq!(seen, (3, 5));
    assert_eq!(vm.pc(), 9);
    assert_eq!(vm.stack(), &[] as &[u32]);
}

#[test]
fn branch_if_not_taken_goes_behind_the_operand() {
    let program = [6, 9, 7];
    let mut vm = Vm::new(&program, "");
    vm.push(3);
    vm.push(5);
    assert_eq!(vm.branch_if(|_, _| false), Ok(()));
    assert_eq!(vm.pc(), 2);
}

#[test]
fn branch_if_fails_without_change() {
    let program = [6, 9, 7];
    let mut vm = Vm::new(&program, "");
    vm.push(3);
    assert_eq!(vm.branch_if(|_, _| true), Err(VmError::StackUnderflow));
    assert_eq!(vm.stack(), &[3]);
    assert_eq!(vm.pc(), 0);
    let short = [6];
    let mut vm = Vm::new(&short, "");
    vm.push(3);
    vm.push(5);
    assert_eq!(vm.branch_if(|_, _| true), Err(VmError::OutOfCode));
    assert_eq!(vm.stack(), &[3, 5]);
}

#[test]
fn decrypter_moves_each_letter_by_the_running_key() {
    let program = assemble(&program()).unwrap();
    assert_eq!(run(&program, ""), Ok(String::new()));
    assert_eq!(run(&program, "a"), Ok("e".to_string()));
    assert_eq!(run(&program, "abc"), Ok("egi".to_string()));
    assert_eq!(run(&program, "z"), Ok("d".to_string()));
    assert_eq!(run(&program, "dzfeg"), Ok("hello".to_string()));
}

#[test]
fn decrypter_key_goes_from_25_back_to_0() {
    let program = assemble(&program()).unwrap();
    let cipher = "a".repeat(30);
    assert_eq!(
        run(&program, &cipher),
        Ok("efghijklmnopqrstuvwxyzabcdefgh".to_string())
    );
}

#[test]
fn decrypter_undoes_the_matching_encryption() {
    let plain = "thequickbrownfoxjumpsoverthelazydogandthenrunsbackhomeagain";
    let mut key: u32 = 4;
    let mut cipher = String::new();
    for ch in plain.chars() {
        let mut code = ch as u32 + 26 - key;
        if code > 'z' as u32 {
            code -= 26;
        }
        cipher.push(char::from_u32(code).unwrap());
        key = if key + 1 > 25 { 0 } else { key + 1 };
    }
    let program = assemble(&program()).unwrap();
    assert_eq!(expected_plain(&cipher), plain);
    assert_eq!(run(&program, &cipher), Ok(plain.to_string()));
}

#[test]
fn decrypter_halts_at_end_of_input() {
    let program = assemble(&program()).unwrap();
    let mut vm = Vm::new(&program, "ab");
    assert_eq!(vm.run(), Ok("eg".to_string()));
    assert_eq!(vm.pc(), 7);
    assert_eq!(program[vm.pc()], Opcode::Exit.to_byte());
    assert_eq!(vm.stack(), &[0]);
    assert_eq!(vm.aux(), 6);
}
