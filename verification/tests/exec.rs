use aheui::engines::Interpreter;
use aheui::parse::OwnedCode;
use aheui::vm::{Env, Flow, VM};

const BUDGET: u64 = 100_000_000;

fn run(src: &str, input: &str) -> (i32, String) {
    let code = OwnedCode::parse(src);
    let env = Env::new(input.as_bytes().to_vec());
    let interp = Interpreter::new(code.as_borrowed());
    let mut vm = VM::new(env, interp);
    match vm.execute(BUDGET) {
        Flow::Halt(exit) => {
            let out = String::from_utf8(vm.output().clone()).unwrap();
            (exit, out)
        }
        Flow::Continue => panic!("step budget exhausted"),
        Flow::Fault(f) => panic!("runtime fault: {:?}", f),
    }
}

#[test]
fn test_echo() {
    let (res, out) = run("밯망희", "밯");
    assert_eq!(res, 0);
    assert_eq!(out, "48175");
}

#[test]
fn test_bieup_char() {
    let (res, out) = run("밯맣밯맣밯맣밯맣밯맣밯맣희", "1+한글😃😄");
    assert_eq!(res, 0);
    assert_eq!(out, "1+한글😃😄");
}

#[test]
fn test_pieup() {
    let (res, out) = run(
        "바밟밟땅밝밝땅팡망망우\n숭ㅇㅇㅇㅇㅇㅇㅇㅇㅇ어\n밟밟밝밝땅땅바팡망망희",
        "",
    );
    assert_eq!(res, 0);
    assert_eq!(out, "81494981");
}

#[test]
fn exec_test_fibo() {
    let (_res, out) = run(
        "반반나빠빠쌈다빠망빠쌈삼파싸사빠발발밖따따쟈하처우\nㅇㅇㅇㅇㅇㅇ오어어어어어어어어어어어어어어어어어어",
        "",
    );
    assert_eq!(out, "23581321345589144233");
}

#[test]
fn test_helloworld() {
    let (res, out) = run(
        "밤밣따빠밣밟따뿌\n빠맣파빨받밤뚜뭏\n돋밬탕빠맣붏두붇\n볻뫃박발뚷투뭏붖\n뫃도뫃희멓뭏뭏붘\n뫃봌토범더벌뿌뚜\n뽑뽀멓멓더벓뻐뚠\n뽀덩벐멓뻐덕더벅",
        "",
    );
    assert_eq!(res, 0);
    assert_eq!(out, "Hello, world!\n");
}

#[test]
fn test_helloworld2() {
    let (res, out) = run(
        "어듀벊벖버범벅벖떠벋벍떠벑번뻐버떠뻐벚벌버더벊벖떠벛벜버버\n　ㅇ　　ㅏㄴㄴㅕㅇ　　ㅎ　　ㅏ　ㅅ　　ㅔ　ㅇ　　ㅛ　　　\\0\n　뿌멓더떠떠떠떠더벋떠벌뻐뻐뻐\n붉차밠밪따따다밠밨따따다　박봃\n받빠따따맣반발따맣아희～",
        "",
    );
    assert_eq!(res, 0);
    assert_eq!(out, "안녕하세요?\n");
}
