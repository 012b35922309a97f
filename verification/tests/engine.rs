use aheui::engines::{Interpreter, AOT};
use aheui::parse::OwnedCode;
use aheui::precompiler::precompile;
use aheui::vm::{Env, Flow, VM};

const BUDGET: u64 = 100_000_000;

fn run_interp(src: &str, input: &str) -> (i32, String) {
    let code = OwnedCode::parse(src);
    let env = Env::new(input.as_bytes().to_vec());
    let interp = Interpreter::new(code.as_borrowed());
    let mut vm = VM::new(env, interp);
    match vm.execute(BUDGET) {
        Flow::Halt(exit) => (exit, String::from_utf8(vm.output().clone()).unwrap()),
        Flow::Continue => panic!("step budget exhausted"),
        Flow::Fault(f) => panic!("runtime fault: {:?}", f),
    }
}

fn run_aot(src: &str, input: &str) -> (i32, String) {
    let code = OwnedCode::parse(src);
    let table = precompile(&code.as_borrowed());
    let interp = Interpreter::new(code.as_borrowed());
    let engine = AOT::new(interp, table);
    let env = Env::new(input.as_bytes().to_vec());
    let mut vm = VM::new(env, engine);
    match vm.execute(BUDGET) {
        Flow::Halt(exit) => (exit, String::from_utf8(vm.output().clone()).unwrap()),
        Flow::Continue => panic!("step budget exhausted"),
        Flow::Fault(f) => panic!("runtime fault: {:?}", f),
    }
}

#[test]
fn aot_agrees_on_fibo() {
    let src = "반반나빠빠쌈다빠망빠쌈삼파싸사빠발발밖따따쟈하처우\nㅇㅇㅇㅇㅇㅇ오어어어어어어어어어어어어어어어어어어";
    assert_eq!(run_interp(src, ""), run_aot(src, ""));
}

#[test]
fn aot_agrees_on_hello_world() {
    let src = "밤밣따빠밣밟따뿌\n빠맣파빨받밤뚜뭏\n돋밬탕빠맣붏두붇\n볻뫃박발뚷투뭏붖\n뫃도뫃희멓뭏뭏붘\n뫃봌토범더벌뿌뚜\n뽑뽀멓멓더벓뻐뚠\n뽀덩벐멓뻐덕더벅";
    assert_eq!(run_interp(src, ""), run_aot(src, ""));
}

#[test]
fn aot_agrees_on_pieup() {
    let src = "바밟밟땅밝밝땅팡망망우\n숭ㅇㅇㅇㅇㅇㅇㅇㅇㅇ어\n밟밟밝밝땅땅바팡망망희";
    assert_eq!(run_interp(src, ""), run_aot(src, ""));
}

#[test]
fn aot_agrees_on_echo() {
    let src = "밯망희";
    assert_eq!(run_interp(src, "밯"), run_aot(src, "밯"));
}

#[test]
fn aot_runs_the_answer() {
    let (exit, out) = run_aot("밦밠따희", "");
    assert_eq!(exit, 42);
    assert_eq!(out, "");
}

#[test]
fn execution_resumes_across_budgets() {
    let src = "반반나빠빠쌈다빠망빠쌈삼파싸사빠발발밖따따쟈하처우\nㅇㅇㅇㅇㅇㅇ오어어어어어어어어어어어어어어어어어어";
    let code = OwnedCode::parse(src);
    let env = Env::new(Vec::new());
    let interp = Interpreter::new(code.as_borrowed());
    let mut vm = VM::new(env, interp);
    assert!(matches!(vm.execute(0), Flow::Continue));
    assert!(matches!(vm.execute(3), Flow::Continue));
    let exit = loop {
        match vm.execute(1000) {
            Flow::Continue => continue,
            Flow::Halt(e) => break e,
            Flow::Fault(f) => panic!("runtime fault: {:?}", f),
        }
    };
    assert_eq!(exit, 144);
    assert_eq!(
        String::from_utf8(vm.output().clone()).unwrap(),
        "23581321345589144233"
    );
}

#[test]
fn precompiler_discovers_traces() {
    // the fibonacci program opens with a long straight push run, so
    // the table cannot be empty and its first trace has a real body
    let code = OwnedCode::parse(
        "반반나빠빠쌈다빠망빠쌈삼파싸사빠발발밖따따쟈하처우\nㅇㅇㅇㅇㅇㅇ오어어어어어어어어어어어어어어어어어어",
    );
    let table = precompile(&code.as_borrowed());
    assert!(!table.entries.is_empty());
    let first = &table.entries[0].1;
    assert!(!first.ops.is_empty());
}
