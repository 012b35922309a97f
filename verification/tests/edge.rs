use aheui::engines::Interpreter;
use aheui::inst::{CursorControl, Inst, Oper, Select};
use aheui::parse::OwnedCode;
use aheui::semantics::Fault;
use aheui::vm::{Env, Flow, VM};

const BUDGET: u64 = 100_000_000;

fn run_flow(src: &str, input: &str) -> (Flow, String) {
    let code = OwnedCode::parse(src);
    let env = Env::new(input.as_bytes().to_vec());
    let interp = Interpreter::new(code.as_borrowed());
    let mut vm = VM::new(env, interp);
    let flow = vm.execute(BUDGET);
    let out = String::from_utf8(vm.output().clone()).unwrap();
    (flow, out)
}

fn run(src: &str, input: &str) -> (i32, String) {
    match run_flow(src, input) {
        (Flow::Halt(exit), out) => (exit, out),
        (Flow::Continue, _) => panic!("step budget exhausted"),
        (Flow::Fault(f), _) => panic!("runtime fault: {:?}", f),
    }
}

#[test]
fn division_by_zero_is_fatal() {
    // push 2, push 0, divide
    let (flow, out) = run_flow("반바나희", "");
    assert!(matches!(flow, Flow::Fault(Fault::DivByZero)));
    assert_eq!(out, "");
}

#[test]
fn negative_code_point_is_fatal() {
    // push 0, push 2, subtract (0 - 2), write as character
    let (flow, _) = run_flow("바반타맣희", "");
    assert!(matches!(flow, Flow::Fault(Fault::Scalar)));
}

#[test]
fn unparsable_integer_is_fatal() {
    let (flow, _) = run_flow("방희", "not a number\n");
    assert!(matches!(flow, Flow::Fault(Fault::Parse)));
}

#[test]
fn integer_overflow_is_fatal() {
    let (flow, _) = run_flow("방희", "2147483648\n");
    assert!(matches!(flow, Flow::Fault(Fault::Parse)));
}

#[test]
fn read_int_accepts_extremes_and_trims() {
    let (exit, out) = run("방망희", "  -2147483648  \n");
    assert_eq!(exit, 0);
    assert_eq!(out, "-2147483648");
    let (exit, out) = run("방망희", "\t+2147483647\r\n");
    assert_eq!(exit, 0);
    assert_eq!(out, "2147483647");
}

#[test]
fn read_char_on_empty_input_is_fatal() {
    let (flow, _) = run_flow("밯망희", "");
    assert!(matches!(flow, Flow::Fault(Fault::Input)));
}

#[test]
fn read_char_on_invalid_utf8_is_fatal() {
    let code = OwnedCode::parse("밯망희");
    let env = Env::new(vec![0xff, 0xfe]);
    let interp = Interpreter::new(code.as_borrowed());
    let mut vm = VM::new(env, interp);
    assert!(matches!(vm.execute(BUDGET), Flow::Fault(Fault::Input)));
}

#[test]
fn overlong_utf8_encoding_is_rejected() {
    // 0xC0 0x80 is an overlong encoding of NUL
    let code = OwnedCode::parse("밯망희");
    let env = Env::new(vec![0xc0, 0x80]);
    let interp = Interpreter::new(code.as_borrowed());
    let mut vm = VM::new(env, interp);
    assert!(matches!(vm.execute(BUDGET), Flow::Fault(Fault::Input)));
}

#[test]
fn using_the_channel_is_fatal() {
    // select the channel, then push
    let (flow, _) = run_flow("샇바희", "");
    assert!(matches!(flow, Flow::Fault(Fault::Channel)));
}

#[test]
fn pop_on_empty_container_reverses() {
    // WriteInt on the empty stack reverses onto the halt cell
    let (exit, out) = run("망희", "");
    assert_eq!(exit, 0);
    assert_eq!(out, "");
}

#[test]
fn swap_underflow_reverses() {
    let (exit, out) = run("파희", "");
    assert_eq!(exit, 0);
    assert_eq!(out, "");
}

#[test]
fn dup_underflow_reverses() {
    let (exit, out) = run("빠희", "");
    assert_eq!(exit, 0);
    assert_eq!(out, "");
}

#[test]
fn stack_subtracts_second_minus_top() {
    // stack [2, 3]: fold of Sub is 2 - 3
    let (_, out) = run("반받타망희", "");
    assert_eq!(out, "-1");
}

#[test]
fn queue_subtracts_second_minus_head() {
    // queue [2, 3]: fold of Sub is 3 - 2, placed at the tail
    let (_, out) = run("상반받타망희", "");
    assert_eq!(out, "1");
}

#[test]
fn queue_preserves_fifo_order() {
    // enqueue 2, 3, 4; write all three: head first
    let (_, out) = run("상반받밤망망망희", "");
    assert_eq!(out, "234");
}

#[test]
fn condition_zero_reverses_nonzero_continues() {
    // read a number, branch with a doubled step: zero reverses straight
    // onto the halt cell, nonzero jumps to a push-and-print pair
    let src = "방챠망반망희";
    let (exit, out) = run(src, "0\n");
    assert_eq!((exit, out.as_str()), (0, ""));
    let (exit, out) = run(src, "7\n");
    assert_eq!((exit, out.as_str()), (0, "2"));
}

#[test]
fn decoder_maps_syllables_and_others() {
    assert_eq!(
        Inst::from('밦'),
        Inst::new(CursorControl::Right, Oper::Push(6))
    );
    assert_eq!(Inst::from('희'), Inst::new(CursorControl::Mirror, Oper::Halt));
    assert_eq!(
        Inst::from('상'),
        Inst::new(CursorControl::Right, Oper::Select(Select::Queue))
    );
    assert_eq!(Inst::from('Q'), Inst::new(CursorControl::Nop, Oper::Nop));
    assert_eq!(Inst::from(';'), Inst::new(CursorControl::Nop, Oper::Nop));
}

#[test]
fn write_int_formats_extremes() {
    let mut out: Vec<u8> = Vec::new();
    aheui::codec::push_dec_i32(&mut out, -2147483648);
    out.push(b' ');
    aheui::codec::push_dec_i32(&mut out, 2147483647);
    out.push(b' ');
    aheui::codec::push_dec_i32(&mut out, 0);
    assert_eq!(String::from_utf8(out).unwrap(), "-2147483648 2147483647 0");
}

#[test]
fn write_char_emits_full_utf8_range() {
    let mut out: Vec<u8> = Vec::new();
    aheui::codec::push_scalar_utf8(&mut out, 0x24);
    aheui::codec::push_scalar_utf8(&mut out, 0xa2);
    aheui::codec::push_scalar_utf8(&mut out, 0xac00);
    aheui::codec::push_scalar_utf8(&mut out, 0x1f603);
    assert_eq!(String::from_utf8(out).unwrap(), "$\u{a2}가😃");
}

#[test]
fn vertical_skip_passes_short_rows() {
    // the downward move from row 0 lands past the end of the short row
    // 1 and skips on to row 2
    let (exit, out) = run("밣우망희\nㅇ\n희망", "");
    assert_eq!(out, "8");
    assert_eq!(exit, 0);
}

#[test]
fn horizontal_wrap_joins_row_ends() {
    // the reversed first write wraps to the row's last cell, and the
    // push there wraps forward to the row's first cell again
    let (exit, out) = run("망희바", "");
    assert_eq!(out, "0");
    assert_eq!(exit, 0);
}

#[test]
fn binary_underflow_reverses() {
    // the addition reverses on one value, gathers a second, and folds
    let (exit, out) = run("밦다망희", "");
    assert_eq!(out, "12");
    assert_eq!(exit, 0);
}
