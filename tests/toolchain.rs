use lua::bytecode::ByteCode;
use lua::lex::{Lex, LexError, Token};
use lua::parse::{ParseError, ParseProto};
use lua::value::{FloatLit, NativeFn, Value};
use lua::vm::{Effect, ExeState};

fn compile(src: &str) -> ParseProto {
    match ParseProto::load(src.as_bytes().to_vec()) {
        Ok(p) => p,
        Err(e) => panic!("compile failed: {:?}", e),
    }
}

fn run(src: &str) -> ExeState {
    let proto = compile(src);
    let mut state = ExeState::new();
    state.execute(&proto);
    state
}

fn tokens(src: &str) -> Vec<Token> {
    let mut lex = Lex::new(src.as_bytes().to_vec());
    let mut out = Vec::new();
    loop {
        let t = lex.next().expect("lexing failed");
        if matches!(t, Token::Eos) {
            break;
        }
        out.push(t);
    }
    out
}

fn first_error(src: &str) -> LexError {
    let mut lex = Lex::new(src.as_bytes().to_vec());
    loop {
        match lex.next() {
            Ok(Token::Eos) => panic!("no error in {:?}", src),
            Ok(_) => {}
            Err(e) => return e,
        }
    }
}

fn str_value(s: &str) -> Value {
    Value::from_bytes(s.as_bytes().to_vec())
}

#[test]
fn local_literals_land_in_register_zero() {
    let cases: Vec<(&str, Value)> = vec![
        ("nil", Value::Nil),
        ("true", Value::Boolean(true)),
        ("false", Value::Boolean(false)),
        ("10", Value::Integer(10)),
        ("1234567", Value::Integer(1234567)),
        ("1.5", Value::Float(FloatLit { int_part: 1, frac: 5, frac_digits: 1 })),
        ("'short'", str_value("short")),
        ("'a string of exactly thirty b!'", str_value("a string of exactly thirty b!")),
        (
            "'a long string that runs well past the forty seven bytes of the middle tier'",
            str_value("a long string that runs well past the forty seven bytes of the middle tier"),
        ),
    ];
    for (lit, expected) in cases {
        let state = run(&format!("local x = {}", lit));
        assert!(state.stack[0] == expected, "literal {}", lit);
    }
}

#[test]
fn identical_strings_share_one_constant() {
    let proto = compile("print 'hello'\nprint 'hello'");
    let hello: Vec<&Value> = proto.constants.iter().filter(|c| **c == str_value("hello")).collect();
    assert_eq!(hello.len(), 1);
    let idx = proto.constants.iter().position(|c| *c == str_value("hello")).unwrap() as u16;
    let loads: Vec<&ByteCode> = proto
        .byte_codes
        .iter()
        .filter(|b| matches!(b, ByteCode::LoadConst(_, c) if *c == idx))
        .collect();
    assert_eq!(loads.len(), 2);
}

#[test]
fn string_tiers_by_length() {
    let five = str_value("abcde");
    let thirty = str_value(&"x".repeat(30));
    let hundred = str_value(&"y".repeat(100));
    assert!(matches!(five, Value::ShortStr(5, _)));
    assert!(matches!(thirty, Value::MidStr(_)));
    assert!(matches!(hundred, Value::LongStr(_)));
    assert_eq!(five.text(), b"abcde".to_vec());
    assert_eq!(thirty.text(), "x".repeat(30).into_bytes());
    assert_eq!(hundred.text(), "y".repeat(100).into_bytes());
}

#[test]
fn tier_is_part_of_identity() {
    let inline = str_value("hi");
    let shared = Value::mid_str(&b"hi".to_vec());
    assert!(matches!(inline, Value::ShortStr(2, _)));
    assert!(matches!(shared, Value::MidStr(_)));
    assert!(inline != shared);
    assert!(inline == str_value("hi"));
    assert!(shared == Value::mid_str(&b"hi".to_vec()));
}

#[test]
fn register_file_grows_on_demand() {
    let mut proto = compile("");
    proto.byte_codes.push(ByteCode::LoadInt(10, 7));
    let mut state = ExeState::new();
    assert!(state.stack.is_empty());
    state.execute(&proto);
    assert!(state.stack.len() >= 11);
    for (i, v) in state.stack.iter().enumerate() {
        if i == 10 {
            assert!(*v == Value::Integer(7));
        } else {
            assert!(*v == Value::Nil);
        }
    }
}

#[test]
fn print_of_a_local_end_to_end() {
    let proto = compile("local a = 10\nprint(a)\n");
    assert_eq!(
        proto.byte_codes,
        vec![
            ByteCode::LoadInt(0, 10),
            ByteCode::GetGlobal(1, 0),
            ByteCode::Move(2, 0),
            ByteCode::Call(2, 1),
        ]
    );
    assert!(proto.constants == vec![str_value("print")]);
    let mut state = ExeState::new();
    state.execute(&proto);
    assert_eq!(state.effects.len(), 1);
    assert!(matches!(&state.effects[0], Effect::Print(t) if *t == b"10".to_vec()));
    assert_eq!(state.globals.len(), 1);
    assert_eq!(state.globals[0].0, b"print".to_vec());
    assert!(state.globals[0].1 == Value::Function(NativeFn::Print));
}

#[test]
fn calling_an_undeclared_global_is_a_soft_failure() {
    let state = run("x()");
    assert_eq!(state.effects.len(), 1);
    assert!(matches!(state.effects[0], Effect::NotCallable));
}

#[test]
fn globals_are_written_from_constants_globals_and_locals() {
    let proto = compile("a = 5\nb = a\nlocal c = 'z'\nd = c\nprint(b)\nprint(d)");
    assert!(matches!(proto.byte_codes[0], ByteCode::SetGlobalConst(_, _)));
    assert!(matches!(proto.byte_codes[1], ByteCode::SetGlobalGlobal(_, _)));
    assert!(matches!(proto.byte_codes[3], ByteCode::SetGlobal(_, 0)));
    let mut state = ExeState::new();
    state.execute(&proto);
    let printed: Vec<Vec<u8>> = state
        .effects
        .iter()
        .map(|e| match e {
            Effect::Print(t) => t.clone(),
            Effect::NotCallable => panic!("unexpected soft failure"),
        })
        .collect();
    assert_eq!(printed, vec![b"5".to_vec(), b"z".to_vec()]);
}

#[test]
fn assignment_to_a_local_reloads_its_register() {
    let proto = compile("local a = 1\na = 2\nprint(a)");
    assert_eq!(proto.byte_codes[1], ByteCode::LoadInt(0, 2));
    let state = run("local a = 1\na = 2\nprint(a)");
    assert!(matches!(&state.effects[0], Effect::Print(t) if *t == b"2".to_vec()));
}

#[test]
fn redeclared_local_keeps_first_binding_visible() {
    let proto = compile("local a = 1\nlocal a = 2\nprint(a)");
    assert_eq!(proto.byte_codes[3], ByteCode::Move(3, 0));
}

#[test]
fn call_with_string_literal_argument() {
    let state = run("print \"hello world\"");
    assert!(matches!(&state.effects[0], Effect::Print(t) if *t == b"hello world".to_vec()));
}

#[test]
fn printing_values_of_each_kind() {
    let state = run("print(nil)\nprint(true)\nprint(0)\nprint(3.25)\nprint(40000)\nprint(print)\nprint(2.05)");
    let printed: Vec<String> = state
        .effects
        .iter()
        .map(|e| match e {
            Effect::Print(t) => String::from_utf8(t.clone()).unwrap(),
            Effect::NotCallable => String::from("?"),
        })
        .collect();
    assert_eq!(printed[0], "nil");
    assert_eq!(printed[1], "true");
    assert_eq!(printed[2], "0");
    assert_eq!(printed[3], "3.25");
    assert_eq!(printed[4], "40000");
    assert_eq!(printed[5], "function");
    assert_eq!(printed[6], "2.05");
}

#[test]
fn integer_text_covers_the_full_range() {
    assert_eq!(Value::Integer(i64::MIN).text(), i64::MIN.to_string().into_bytes());
    assert_eq!(Value::Integer(i64::MAX).text(), i64::MAX.to_string().into_bytes());
    assert_eq!(Value::Integer(-42).text(), b"-42".to_vec());
    assert_eq!(Value::Boolean(false).text(), b"false".to_vec());
}

#[test]
fn operators_and_punctuation() {
    let toks = tokens("+ - * / // % ^ # & ~ | << >> == ~= <= >= < > = ( ) { } [ ] :: ; : , . .. ...");
    let names: Vec<String> = toks.iter().map(|t| format!("{:?}", t)).collect();
    assert_eq!(
        names,
        vec![
            "Add", "Sub", "Mul", "Div", "Idiv", "Mod", "Pow", "Len", "BitAnd", "BitXor", "BitOr",
            "ShiftL", "ShiftR", "Equal", "NotEq", "LesEq", "GreEq", "Less", "Greater", "Assign",
            "ParL", "ParR", "CurlyL", "CurlyR", "SqurL", "SqurR", "DoubColon", "SemiColon",
            "Colon", "Comma", "Dot", "Concat", "Dots"
        ]
    );
}

#[test]
fn keywords_names_and_comments() {
    let toks = tokens("local while_x = nil -- a comment\nwhile end _under9");
    assert!(matches!(toks[0], Token::Local));
    assert!(matches!(&toks[1], Token::Name(n) if *n == b"while_x".to_vec()));
    assert!(matches!(toks[2], Token::Assign));
    assert!(matches!(toks[3], Token::Nil));
    assert!(matches!(toks[4], Token::While));
    assert!(matches!(toks[5], Token::End));
    assert!(matches!(&toks[6], Token::Name(n) if *n == b"_under9".to_vec()));
    assert_eq!(toks.len(), 7);
}

#[test]
fn numbers_and_strings() {
    let toks = tokens("42 0 .5 3.14 'it' \"q'\"");
    assert!(matches!(toks[0], Token::Integer(42)));
    assert!(matches!(toks[1], Token::Integer(0)));
    assert!(matches!(toks[2], Token::Float(FloatLit { int_part: 0, frac: 5, frac_digits: 1 })));
    assert!(matches!(toks[3], Token::Float(FloatLit { int_part: 3, frac: 14, frac_digits: 2 })));
    assert!(matches!(&toks[4], Token::Str(s) if *s == b"it".to_vec()));
    assert!(matches!(&toks[5], Token::Str(s) if *s == b"q'".to_vec()));
}

#[test]
fn peek_does_not_consume() {
    let mut lex = Lex::new(b"a = 1".to_vec());
    assert!(matches!(lex.peek(), Ok(Token::Name(_))));
    assert!(matches!(lex.peek(), Ok(Token::Name(_))));
    assert!(matches!(lex.next(), Ok(Token::Name(_))));
    assert!(matches!(lex.next(), Ok(Token::Assign)));
    assert!(matches!(lex.next(), Ok(Token::Integer(1))));
    assert!(matches!(lex.next(), Ok(Token::Eos)));
}

#[test]
fn lexical_errors() {
    assert_eq!(first_error("'open"), LexError::UnterminatedString);
    assert_eq!(first_error("'a\\n'"), LexError::Escape);
    assert_eq!(first_error("0x1F"), LexError::HexNumber);
    assert_eq!(first_error("1e5"), LexError::Exponent);
    assert_eq!(first_error("--[[ block ]]"), LexError::BlockComment);
    assert_eq!(first_error("@"), LexError::InvalidChar(b'@'));
    assert_eq!(first_error("99999999999999999999"), LexError::NumberTooLarge);
}

#[test]
fn syntax_errors() {
    let err = |src: &str| ParseProto::load(src.as_bytes().to_vec()).err();
    assert_eq!(err("local = 1"), Some(ParseError::ExpectedName));
    assert_eq!(err("local a 1"), Some(ParseError::ExpectedAssign));
    assert_eq!(err("print(1"), Some(ParseError::ExpectedParR));
    assert_eq!(err("print 1"), Some(ParseError::ExpectedArguments));
    assert_eq!(err("a = +"), Some(ParseError::UnexpectedToken));
    assert_eq!(err("1"), Some(ParseError::UnexpectedToken));
    assert_eq!(err("a = 'x"), Some(ParseError::Lex(LexError::UnterminatedString)));
}

#[test]
fn large_integers_go_to_the_constant_pool() {
    let proto = compile("local a = 100000");
    assert!(matches!(proto.byte_codes[0], ByteCode::LoadConst(0, 0)));
    assert!(proto.constants[0] == Value::Integer(100000));
}

#[test]
fn dedup_source_compiles_to_exact_unit() {
    let proto = compile("local a = 'hi'\nlocal b = 'hi'\n");
    assert!(proto.constants == vec![str_value("hi")]);
    assert_eq!(proto.byte_codes, vec![ByteCode::LoadConst(0, 0), ByteCode::LoadConst(1, 0)]);
    let long = "m".repeat(30);
    let proto = compile(&format!("local a = '{0}'\nprint('{0}')\n", long));
    assert!(proto.constants == vec![str_value(&long), str_value("print")]);
}

#[test]
fn global_assignments_compile_to_exact_unit() {
    let proto = compile("x = 1\ny = x\nlocal a = true\nz = a\nw = 's'\n");
    assert!(
        proto.constants
            == vec![
                str_value("x"),
                Value::Integer(1),
                str_value("y"),
                str_value("z"),
                str_value("w"),
                str_value("s"),
            ]
    );
    assert_eq!(
        proto.byte_codes,
        vec![
            ByteCode::SetGlobalConst(0, 1),
            ByteCode::SetGlobalGlobal(2, 0),
            ByteCode::LoadBool(0, true),
            ByteCode::SetGlobal(3, 0),
            ByteCode::SetGlobalConst(4, 5),
        ]
    );
}

#[test]
fn undeclared_call_compiles_to_lookup_nil_and_call() {
    let proto = compile("x()\n");
    assert!(proto.constants == vec![str_value("x")]);
    assert_eq!(
        proto.byte_codes,
        vec![ByteCode::GetGlobal(0, 0), ByteCode::LoadNil(1), ByteCode::Call(1, 1)]
    );
    let state = run("x()\n");
    assert!(state.stack[0] == Value::Nil);
    assert_eq!(state.globals.len(), 1);
}

#[test]
fn float_literals_are_held_by_value() {
    let toks = tokens("1.50 2.000 0.25");
    assert!(matches!(toks[0], Token::Float(FloatLit { int_part: 1, frac: 5, frac_digits: 1 })));
    assert!(matches!(toks[1], Token::Float(FloatLit { int_part: 2, frac: 0, frac_digits: 0 })));
    assert!(matches!(toks[2], Token::Float(FloatLit { int_part: 0, frac: 25, frac_digits: 2 })));
    let proto = compile("local a = 1.5\nlocal b = 1.50\n");
    assert_eq!(proto.constants.len(), 1);
    let state = run("print(1.50)\nprint(2.000)");
    let printed: Vec<Vec<u8>> = state
        .effects
        .iter()
        .map(|e| match e {
            Effect::Print(t) => t.clone(),
            Effect::NotCallable => vec![],
        })
        .collect();
    assert_eq!(printed, vec![b"1.5".to_vec(), b"2.0".to_vec()]);
}

#[test]
fn fixed_size_strings_are_zero_padded() {
    match str_value("abc") {
        Value::ShortStr(3, buf) => assert!(buf[3..].iter().all(|b| *b == 0)),
        _ => panic!("expected the inline tier"),
    }
    match Value::mid_str(&b"abc".to_vec()) {
        Value::MidStr(rc) => assert!(rc.1[3..].iter().all(|b| *b == 0)),
        _ => panic!("expected the shared fixed-size tier"),
    }
}
