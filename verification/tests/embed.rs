use aheui::engines::Interpreter;
use aheui::parse::OwnedCode;
use aheui::text::{dedent, split_source, trim_empty_lines};
use aheui::vm::{Env, Flow, VM};

const BUDGET: u64 = 100_000_000;

/// The embedding front-end's source preparation: drop blank lines at
/// either end, then remove the longest common whitespace indent.
fn prep(text: &str) -> Vec<Vec<char>> {
    let chars: Vec<char> = text.chars().collect();
    let lines = split_source(&chars);
    dedent(&trim_empty_lines(&lines))
}

fn run(lines: &Vec<Vec<char>>, input: &str) -> (i32, String) {
    let code = OwnedCode::parse_lines(lines);
    let env = Env::new(input.as_bytes().to_vec());
    let interp = Interpreter::new(code.as_borrowed());
    let mut vm = VM::new(env, interp);
    match vm.execute(BUDGET) {
        Flow::Halt(exit) => {
            let out = String::from_utf8(vm.output().clone()).unwrap();
            (exit, out)
        }
        Flow::Continue => panic!("step budget exhausted"),
        Flow::Fault(f) => panic!("runtime fault: {:?}", f),
    }
}

#[test]
fn test_the_answer() {
    let program = prep("\n    밦밠따희\n");
    let (code, _out) = run(&program, "");
    assert_eq!(42, code);
}

#[test]
fn test_hello_world_string() {
    let program = prep(
        "
    밤밣따빠밣밟따뿌;
    빠맣파빨받밤뚜뭏;
    돋밬탕빠맣붏두붇;
    볻뫃박발뚷투뭏붖;
    뫃도뫃희멓뭏뭏붘;
    뫃봌토범더벌뿌뚜;
    뽑뽀멓멓더벓뻐뚠;
    뽀덩벐멓뻐덕더벅;
",
    );
    let (_code, out) = run(&program, "");
    assert_eq!("Hello, world!\n", &out);
}

#[test]
fn tests_test_fibo() {
    let program = prep(
        "
    반반나빠빠쌈다빠망빠쌈삼파싸사빠발발밖따따쟈하처우;
    ㅇㅇㅇㅇㅇㅇ오어어어어어어어어어어어어어어어어어어
",
    );
    let (code, out) = run(&program, "");
    assert_eq!(144, code);
    assert_eq!(&"23581321345589144233", &out);
}

#[test]
fn test_codepoint() {
    let program = prep("\n    밯망희\n");
    let (_code, out) = run(&program, "뙇");
    assert_eq!("46663", &out);
}

#[test]
fn test_alt_quotes() {
    let sources = [
        "
    어듀벊벖버범벅벖떠벋벍떠벑번뻐버떠뻐벚벌버더벊벖떠벛벜버버
    _ㅇ　　ㅏㄴㄴㅕㅇ　　ㅎ　　ㅏ　ㅅ　　ㅔ　ㅇ　　ㅛ　　　\\0
    _뿌멓더떠떠떠떠더벋떠벌뻐뻐뻐
    붉차밠밪따따다밠밨따따다　박봃
    받빠따따맣반발따맣아희～
",
        "
    어듀벊벖버범벅벖떠벋벍떠벑번뻐버떠뻐벚벌버더벊벖떠벛벜버버
    　ㅇ　　ㅏㄴㄴㅕㅇ　　ㅎ　　ㅏ　ㅅ　　ㅔ　ㅇ　　ㅛ　　　\\0
    　뿌멓더떠떠떠떠더벋떠벌뻐뻐뻐
    붉차밠밪따따다밠밨따따다　박봃
    받빠따따맣반발따맣아희～
",
        "
    어듀벊벖버범벅벖떠벋벍떠벑번뻐버떠뻐벚벌버더벊벖떠벛벜버버
    　ㅇ　　ㅏㄴㄴㅕㅇ　　ㅎ　　ㅏ　ㅅ　　ㅔ　ㅇ　　ㅛ　　　\\0
    　뿌멓더떠떠떠떠더벋떠벌뻐뻐뻐
    붉차밠밪따따다밠밨따따다　박봃
    받빠따따맣반발따맣아희～
    ",
        "
    어듀벊벖버범벅벖떠벋벍떠벑번뻐버떠뻐벚벌버더벊벖떠벛벜버버
    　ㅇ　　ㅏㄴㄴㅕㅇ　　ㅎ　　ㅏ　ㅅ　　ㅔ　ㅇ　　ㅛ　　　\\0
    　뿌멓더떠떠떠떠더벋떠벌뻐뻐뻐
    붉차밠밪따따다밠밨따따다　박봃
    받빠따따맣반발따맣아희～
    ",
        "
    어듀벊벖버범벅벖떠벋벍떠벑번뻐버떠뻐벚벌버더벊벖떠벛벜버버
    　ㅇ　　ㅏㄴㄴㅕㅇ　　ㅎ　　ㅏ　ㅅ　　ㅔ　ㅇ　　ㅛ　　　\\0
    　뿌멓더떠떠떠떠더벋떠벌뻐뻐뻐
    붉차밠밪따따다밠밨따따다　박봃
    받빠따따맣반발따맣아희～
    ",
    ];
    for src in sources {
        let program = prep(src);
        let (_code, out) = run(&program, "");
        assert_eq!("안녕하세요?\n", &out);
    }
}
