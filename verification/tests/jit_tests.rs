use tapejit::codegen::NativeOp;
use tapejit::interp::{Dispatch, Emu};
use tapejit::jitcache::{JitCache, JitError};
use tapejit::{VmError, VmExit};

fn src(text: &str) -> Vec<u8> {
    text.as_bytes().to_vec()
}

#[test]
fn lookup_reports_not_present_before_any_insert() {
    let cache = JitCache::with_capacity(1024, 4096);
    assert_eq!(cache.lookup(0), None);
    assert_eq!(cache.lookup(4), None);
    assert_eq!(cache.lookup(1020), None);
}

#[test]
fn lookup_after_insert_returns_the_same_address_every_time() {
    let mut cache = JitCache::with_capacity(1024, 4096);
    let code = vec![0x90u8, 0x90, 0xc3];
    let addr = cache.add_mapping(8, &code).unwrap();
    assert_eq!(cache.lookup(8), Some(addr));
    assert_eq!(cache.lookup(8), Some(addr));
    assert_eq!(cache.lookup(8), Some(addr));
    // other slots stay untranslated
    assert_eq!(cache.lookup(4), None);
    assert_eq!(cache.lookup(12), None);
}

#[test]
fn insert_is_idempotent_and_the_arena_grows_once() {
    let mut cache = JitCache::with_capacity(1024, 4096);
    let before = cache.arena_in_use();
    let bytes1 = vec![1u8, 2, 3, 4, 5];
    let bytes2 = vec![9u8; 100];
    let a1 = cache.add_mapping(16, &bytes1).unwrap();
    let a2 = cache.add_mapping(16, &bytes2).unwrap();
    assert_eq!(a1, a2);
    assert_eq!(cache.arena_in_use(), before + bytes1.len());
    assert_eq!(cache.lookup(16), Some(a1));
}

#[test]
fn distinct_slots_get_distinct_blocks() {
    let mut cache = JitCache::with_capacity(64, 256);
    let a = cache.add_mapping(0, &vec![0xc3u8]).unwrap();
    let b = cache.add_mapping(4, &vec![0xc3u8, 0xc3]).unwrap();
    assert_ne!(a, b);
    assert_eq!(cache.lookup(0), Some(a));
    assert_eq!(cache.lookup(4), Some(b));
    assert_eq!(cache.arena_in_use(), 3);
}

#[test]
fn a_block_that_does_not_fit_is_out_of_space() {
    let mut cache = JitCache::with_capacity(16, 4);
    let r = cache.add_mapping(0, &vec![0u8; 5]);
    assert_eq!(r.unwrap_err(), JitError::OutOfSpace);
    // the failed insertion changed nothing
    assert_eq!(cache.lookup(0), None);
    assert_eq!(cache.arena_in_use(), 0);
    // a fitting block still goes in afterwards
    let a = cache.add_mapping(0, &vec![0u8; 4]).unwrap();
    assert_eq!(cache.lookup(0), Some(a));
}

#[test]
fn codegen_fuses_counts_into_immediates_and_ends_with_ret() {
    let emu = Emu::new(4);
    let reqs = emu.generate_jit_opt(&src("+++.")).unwrap();
    assert_eq!(reqs, vec![NativeOp::AddCell(3), NativeOp::WriteCall, NativeOp::Ret]);
}

#[test]
fn codegen_lowers_a_loop_with_stack_ordered_labels() {
    let emu = Emu::new(4);
    let reqs = emu.generate_jit_opt(&src("+[-]")).unwrap();
    assert_eq!(
        reqs,
        vec![
            NativeOp::AddCell(1),
            NativeOp::Label(0),
            NativeOp::JumpIfZero(1),
            NativeOp::SubCell(1),
            NativeOp::Jump(0),
            NativeOp::Label(1),
            NativeOp::Ret,
        ]
    );
}

#[test]
fn codegen_gives_nested_loops_non_colliding_labels() {
    let emu = Emu::new(4);
    let reqs = emu.generate_jit_opt(&src("[[-]]")).unwrap();
    assert_eq!(
        reqs,
        vec![
            NativeOp::Label(0),
            NativeOp::JumpIfZero(1),
            NativeOp::Label(2),
            NativeOp::JumpIfZero(3),
            NativeOp::SubCell(1),
            NativeOp::Jump(2),
            NativeOp::Label(3),
            NativeOp::Jump(0),
            NativeOp::Label(1),
            NativeOp::Ret,
        ]
    );
}

#[test]
fn codegen_folds_long_runs_modulo_256_into_the_byte_immediate() {
    let emu = Emu::new(4);
    let mut text = String::new();
    for _ in 0..300 {
        text.push('+');
    }
    let reqs = emu.generate_jit_opt(&src(&text)).unwrap();
    assert_eq!(reqs, vec![NativeOp::AddCell(44), NativeOp::Ret]);
}

#[test]
fn unfused_codegen_emits_one_request_per_opcode() {
    let emu = Emu::new(4);
    let reqs = emu.generate_jit(&src("++>.")).unwrap();
    assert_eq!(
        reqs,
        vec![
            NativeOp::AddCell(1),
            NativeOp::AddCell(1),
            NativeOp::AddPtr(1),
            NativeOp::WriteCall,
            NativeOp::Ret,
        ]
    );
}

#[test]
fn codegen_rejects_an_unmatched_bracket() {
    let emu = Emu::new(4);
    assert_eq!(emu.generate_jit_opt(&src("[")).unwrap_err(), VmError::UnmatchedOpen(0));
    assert_eq!(emu.generate_jit_opt(&src("+]")).unwrap_err(), VmError::UnmatchedClose(1));
}

#[test]
fn pointer_runs_lower_to_register_adds_and_subtracts() {
    let emu = Emu::new(4);
    let reqs = emu.generate_jit_opt(&src(">>>><<")).unwrap();
    assert_eq!(reqs, vec![NativeOp::AddPtr(4), NativeOp::SubPtr(2), NativeOp::Ret]);
}

#[test]
fn dispatcher_interprets_without_a_cache() {
    let mut emu = Emu::new(4);
    match emu.run(&src("+++."), &Vec::new(), 1_000_000).unwrap() {
        Dispatch::Interpreted(outcome) => {
            assert_eq!(outcome.exit, VmExit::Exit);
            assert_eq!(outcome.output, vec![3u8]);
        },
        Dispatch::TranslateAndRun => panic!("no cache was attached"),
    }
}

#[test]
fn dispatcher_hands_the_run_to_the_jit_path_when_enabled() {
    let cache = JitCache::with_capacity(1024, 4096);
    let mut emu = Emu::new(4).enable_jit(cache);
    match emu.run(&src("+++."), &Vec::new(), 1_000_000).unwrap() {
        Dispatch::Interpreted(_) => panic!("a JIT run never falls back to interpretation"),
        Dispatch::TranslateAndRun => {},
    }
}

#[test]
fn default_cache_has_the_sixteen_megabyte_arena() {
    let cache = JitCache::new(1024 * 1024);
    assert_eq!(cache.arena_in_use(), 0);
    assert_eq!(cache.lookup(0), None);
}
