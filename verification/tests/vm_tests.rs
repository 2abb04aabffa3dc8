use tapejit::interp::Emu;
use tapejit::ir::{decode, FusedOp};
use tapejit::remove_whitespace;
use tapejit::{VmError, VmExit};

const FUEL: u64 = 10_000_000;

fn src(text: &str) -> Vec<u8> {
    text.as_bytes().to_vec()
}

#[test]
fn five_pluses_fuse_into_one_op() {
    let ops = decode(&src("+++++"));
    assert_eq!(ops, vec![FusedOp::IncrementCell(5)]);
}

#[test]
fn fused_increment_wraps_modulo_256() {
    let mut emu = Emu::new(4);
    emu.memory[0] = 253;
    let r = emu.run_vm3(&src("+++++"), &Vec::new(), FUEL).unwrap();
    assert_eq!(r.exit, VmExit::Exit);
    assert_eq!(emu.memory[0], 2);
}

#[test]
fn comment_characters_break_runs_and_are_skipped() {
    let ops = decode(&src("++ ++"));
    assert_eq!(ops, vec![FusedOp::IncrementCell(2), FusedOp::IncrementCell(2)]);
    let mut emu = Emu::new(2);
    let r = emu.run_vm3(&src("+a+b+."), &Vec::new(), FUEL).unwrap();
    assert_eq!(r.exit, VmExit::Exit);
    assert_eq!(r.output, vec![3u8]);
}

#[test]
fn advance_on_one_cell_tape_is_bounds_exit_with_no_output() {
    for tier in 0..3 {
        let mut emu = Emu::new(1);
        let r = match tier {
            0 => emu.run_vm(&src(">"), &Vec::new(), FUEL),
            1 => emu.run_vm2(&src(">"), &Vec::new(), FUEL),
            _ => emu.run_vm3(&src(">"), &Vec::new(), FUEL),
        };
        let outcome = r.unwrap();
        assert_eq!(outcome.exit, VmExit::PtrOob);
        assert_eq!(outcome.output.len(), 0);
    }
}

#[test]
fn three_increments_then_write_emits_the_byte_three() {
    for tier in 0..3 {
        let mut emu = Emu::new(8);
        let r = match tier {
            0 => emu.run_vm(&src("+++."), &Vec::new(), FUEL),
            1 => emu.run_vm2(&src("+++."), &Vec::new(), FUEL),
            _ => emu.run_vm3(&src("+++."), &Vec::new(), FUEL),
        };
        let outcome = r.unwrap();
        assert_eq!(outcome.exit, VmExit::Exit);
        assert_eq!(outcome.output, vec![3u8]);
    }
}

#[test]
fn clear_loop_zeroes_the_cell_with_no_output() {
    for tier in 0..3 {
        let mut emu = Emu::new(8);
        let r = match tier {
            0 => emu.run_vm(&src("+[-]"), &Vec::new(), FUEL),
            1 => emu.run_vm2(&src("+[-]"), &Vec::new(), FUEL),
            _ => emu.run_vm3(&src("+[-]"), &Vec::new(), FUEL),
        };
        let outcome = r.unwrap();
        assert_eq!(outcome.exit, VmExit::Exit);
        assert_eq!(outcome.output.len(), 0);
        assert_eq!(emu.memory[0], 0);
    }
}

#[test]
fn retreat_before_the_left_edge_is_bounds_exit() {
    for tier in 0..3 {
        let mut emu = Emu::new(4);
        let r = match tier {
            0 => emu.run_vm(&src("><<"), &Vec::new(), FUEL),
            1 => emu.run_vm2(&src("><<"), &Vec::new(), FUEL),
            _ => emu.run_vm3(&src("><<"), &Vec::new(), FUEL),
        };
        assert_eq!(r.unwrap().exit, VmExit::PtrOob);
    }
}

#[test]
fn unmatched_open_bracket_is_fatal_before_execution() {
    for tier in 0..3 {
        let mut emu = Emu::new(4);
        let r = match tier {
            0 => emu.run_vm(&src("+["), &Vec::new(), FUEL),
            1 => emu.run_vm2(&src("+["), &Vec::new(), FUEL),
            _ => emu.run_vm3(&src("+["), &Vec::new(), FUEL),
        };
        assert_eq!(r.unwrap_err(), VmError::UnmatchedOpen(1));
        // reported before any instruction ran: the '+' never executed
        assert_eq!(emu.memory[0], 0);
    }
}

#[test]
fn unmatched_close_bracket_is_fatal_before_execution() {
    for tier in 0..3 {
        let mut emu = Emu::new(4);
        let r = match tier {
            0 => emu.run_vm(&src("+]"), &Vec::new(), FUEL),
            1 => emu.run_vm2(&src("+]"), &Vec::new(), FUEL),
            _ => emu.run_vm3(&src("+]"), &Vec::new(), FUEL),
        };
        assert_eq!(r.unwrap_err(), VmError::UnmatchedClose(1));
        assert_eq!(emu.memory[0], 0);
    }
}

#[test]
fn read_stores_the_input_byte_and_write_echoes_it() {
    for tier in 0..3 {
        let mut emu = Emu::new(4);
        let input = vec![65u8, 66u8];
        let r = match tier {
            0 => emu.run_vm(&src(",>,<.>."), &input, FUEL),
            1 => emu.run_vm2(&src(",>,<.>."), &input, FUEL),
            _ => emu.run_vm3(&src(",>,<.>."), &input, FUEL),
        };
        let outcome = r.unwrap();
        assert_eq!(outcome.exit, VmExit::Exit);
        assert_eq!(outcome.output, vec![65u8, 66u8]);
    }
}

#[test]
fn reading_past_the_input_is_a_fatal_io_error() {
    for tier in 0..3 {
        let mut emu = Emu::new(4);
        let r = match tier {
            0 => emu.run_vm(&src(","), &Vec::new(), FUEL),
            1 => emu.run_vm2(&src(","), &Vec::new(), FUEL),
            _ => emu.run_vm3(&src(","), &Vec::new(), FUEL),
        };
        assert_eq!(r.unwrap_err(), VmError::InputExhausted);
    }
}

#[test]
fn an_endless_loop_exhausts_the_step_budget() {
    for tier in 0..3 {
        let mut emu = Emu::new(4);
        let r = match tier {
            0 => emu.run_vm(&src("+[]"), &Vec::new(), 10_000),
            1 => emu.run_vm2(&src("+[]"), &Vec::new(), 10_000),
            _ => emu.run_vm3(&src("+[]"), &Vec::new(), 10_000),
        };
        assert_eq!(r.unwrap_err(), VmError::StepLimit);
    }
}

#[test]
fn all_tiers_agree_on_a_nested_loop_program() {
    // doubles cell 0 into cell 1 inside an outer countdown, then prints
    let text = "++++[>++[>+<-]<-]>>.";
    let mut outs: Vec<Vec<u8>> = Vec::new();
    let mut tapes: Vec<Vec<u8>> = Vec::new();
    for tier in 0..3 {
        let mut emu = Emu::new(16);
        let r = match tier {
            0 => emu.run_vm(&src(text), &Vec::new(), FUEL),
            1 => emu.run_vm2(&src(text), &Vec::new(), FUEL),
            _ => emu.run_vm3(&src(text), &Vec::new(), FUEL),
        };
        let outcome = r.unwrap();
        assert_eq!(outcome.exit, VmExit::Exit);
        outs.push(outcome.output);
        tapes.push(emu.memory.clone());
    }
    assert_eq!(outs[0], outs[1]);
    assert_eq!(outs[1], outs[2]);
    assert_eq!(tapes[0], tapes[1]);
    assert_eq!(tapes[1], tapes[2]);
    assert_eq!(outs[0], vec![8u8]);
}

#[test]
fn all_tiers_print_the_same_greeting() {
    let mut text = src(
        ">++++++++[<+++++++++>-]<.>++++[<+++++++>-]<+.+++++++..+++.>>++++++[<+++++++>-]<+\
         +.------------.>++++++[<+++++++++>-]<+.<.+++.------.--------.>>>++++[<++++++++>-\
         ]<+.",
    );
    remove_whitespace(&mut text);
    let mut outs: Vec<Vec<u8>> = Vec::new();
    for tier in 0..3 {
        let mut emu = Emu::new(30000);
        let r = match tier {
            0 => emu.run_vm(&text, &Vec::new(), FUEL),
            1 => emu.run_vm2(&text, &Vec::new(), FUEL),
            _ => emu.run_vm3(&text, &Vec::new(), FUEL),
        };
        let outcome = r.unwrap();
        assert_eq!(outcome.exit, VmExit::Exit);
        outs.push(outcome.output);
    }
    assert_eq!(outs[0], outs[1]);
    assert_eq!(outs[1], outs[2]);
    assert!(!outs[0].is_empty());
}

#[test]
fn remove_whitespace_strips_every_ascii_whitespace_kind() {
    let mut v = src(" +\t+\n+\r+ \x0b+\x0c ");
    remove_whitespace(&mut v);
    assert_eq!(v, src("+++++"));
}

#[test]
fn decode_skips_a_source_of_only_comments() {
    let ops = decode(&src("hello world"));
    assert_eq!(ops.len(), 0);
}

#[test]
fn decode_keeps_bracket_and_io_ops_unmerged() {
    let ops = decode(&src("[[..,,]]"));
    assert_eq!(
        ops,
        vec![
            FusedOp::LoopStart,
            FusedOp::LoopStart,
            FusedOp::WriteByte,
            FusedOp::WriteByte,
            FusedOp::ReadByte,
            FusedOp::ReadByte,
            FusedOp::LoopEnd,
            FusedOp::LoopEnd,
        ]
    );
}

#[test]
fn fused_pointer_run_checks_the_whole_move() {
    // advancing by 3 from cell 0 on a 3-cell tape must be a bounds exit
    let mut emu = Emu::new(3);
    let r = emu.run_vm3(&src(">>>"), &Vec::new(), FUEL).unwrap();
    assert_eq!(r.exit, VmExit::PtrOob);
}

#[test]
fn the_step_budget_counts_reference_steps_for_the_character_tiers() {
    // three increments are three reference steps: a budget of 3 completes,
    // a budget of 2 does not
    let mut emu = Emu::new(2);
    assert_eq!(emu.run_vm2(&src("+++"), &Vec::new(), 3).unwrap().exit, VmExit::Exit);
    let mut emu2 = Emu::new(2);
    assert_eq!(emu2.run_vm2(&src("+++"), &Vec::new(), 2).unwrap_err(), VmError::StepLimit);
}

#[test]
fn the_step_budget_counts_fused_steps_for_the_fused_tier() {
    // the same three increments fuse into one operation: one fused step
    let mut emu = Emu::new(2);
    let r = emu.run_vm3(&src("+++"), &Vec::new(), 1).unwrap();
    assert_eq!(r.exit, VmExit::Exit);
    assert_eq!(emu.memory[0], 3);
}
