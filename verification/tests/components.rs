use bylox::chunk;
use bylox::chunk::Chunk;
use bylox::chunk::OpCode;
use bylox::compiler::parse_string;
use bylox::debug::LineMap;
use bylox::num;
use bylox::scanner::str_to_keyword;
use bylox::scanner::Scanner;
use bylox::scanner::TokenKind;
use bylox::value::Value;
use bylox::vm::Vm;

#[test]
fn number_equality_matches_hardware() {
    let samples: [f64; 9] = [0.0, -0.0, 1.0, -1.5, 3.25, f64::NAN, f64::INFINITY, f64::NEG_INFINITY, 1e300];
    for &a in samples.iter() {
        for &b in samples.iter() {
            assert_eq!(num::num_eq(a.to_bits(), b.to_bits()), a == b, "eq {a} {b}");
            assert_eq!(num::num_lt(a.to_bits(), b.to_bits()), a < b, "lt {a} {b}");
            assert_eq!(num::num_gt(a.to_bits(), b.to_bits()), a > b, "gt {a} {b}");
        }
    }
}

#[test]
fn number_negation_matches_hardware() {
    for &a in [0.0f64, -0.0, 1.0, -2.5, f64::NAN, f64::INFINITY].iter() {
        assert_eq!(num::num_neg(a.to_bits()), (-a).to_bits());
    }
}

#[test]
fn machine_arithmetic_matches_hardware() {
    let samples: [f64; 5] = [0.5, 1.0, 1.5, 3.25, 7.0];
    for &a in samples.iter() {
        for &b in samples.iter() {
            let cases = [
                ("+", a + b),
                ("-", a - b),
                ("*", a * b),
                ("/", a / b),
                ("%", a % b),
            ];
            for (op, expected) in cases.iter() {
                let source = format!("print {} {} {};", a, op, b);
                let mut vm = Vm::new(Box::new(Chunk::default()));
                assert!(vm.interpret(&source).is_ok(), "{source}");
                // the printed decimal must parse back to the exact result
                let shown: f64 = vm.output()[0].parse().unwrap();
                assert_eq!(shown.to_bits(), expected.to_bits(), "{source}");
            }
        }
    }
}

#[test]
fn number_parse_matches_hardware() {
    for s in ["0", "7", "255", "3.25", "0.5", "123.456", "1000000"] {
        let expected: f64 = s.parse().unwrap();
        assert_eq!(num::num_parse(s), expected.to_bits(), "parse {s}");
    }
}

#[test]
fn integral_display_matches_hardware() {
    for &a in [0.0f64, -0.0, 7.0, 15.0, 255.0, 10000.0, 9007199254740991.0, -42.0].iter() {
        assert_eq!(num::num_display(a.to_bits()), format!("{}", a), "display {a}");
    }
}

#[test]
fn parse_display_parse_round_trip() {
    for s in ["0", "7", "255", "3.25", "0.5", "0.1", "123.456", "10000"] {
        let bits = num::num_parse(s);
        let shown = num::num_display(bits);
        let reparsed = num::num_parse(&shown);
        assert_eq!(bits, reparsed, "round trip {s} via {shown}");
    }
}

#[test]
fn escape_decoding_preserves_bytes_through_pool() {
    let decoded = parse_string("a\\nb\\\\c\\0d").unwrap();
    assert_eq!(decoded, "a\nb\\c\0d");

    let mut chunk = Chunk::default();
    let id = chunk.add_constant(Value::of_string(decoded.clone()));
    let stored = chunk.get_constant(id).string_value().unwrap();
    assert_eq!(stored.as_bytes(), decoded.as_bytes());
}

#[test]
fn reserved_and_unknown_escapes_error() {
    assert_eq!(parse_string("\\x41"), Err("unimplemented string escape `\\x`"));
    assert_eq!(parse_string("\\u1234"), Err("unimplemented string escape `\\u`"));
    assert_eq!(parse_string("\\q"), Err("unrecognized string escape"));
    assert_eq!(parse_string("oops\\"), Err("unexpected end of string"));
}

#[test]
fn constant_id_255_short_256_long() {
    let mut chunk = Chunk::default();
    for i in 0..257u64 {
        chunk.write_constant(Value::Number(i), 1);
    }
    // ids 0..=255 use the two-byte short form
    assert_eq!(chunk.read(510), 0, "short opcode for id 255");
    assert_eq!(chunk.read(511), 255);
    // id 256 uses the four-byte big-endian long form
    assert_eq!(chunk.read(512), 1, "long opcode for id 256");
    assert_eq!(chunk.read(513), 0);
    assert_eq!(chunk.read(514), 1);
    assert_eq!(chunk.read(515), 0);
}

#[test]
fn constant_is_long_boundaries() {
    assert!(!chunk::constant_is_long(0));
    assert!(!chunk::constant_is_long(255));
    assert!(chunk::constant_is_long(256));
    assert!(chunk::constant_is_long(0xffffff));
}

#[test]
fn line_map_lookup() {
    let mut lines = LineMap::default();
    lines.add(0, 1);
    lines.add(3, 1);
    lines.add(5, 2);
    lines.add(9, 4);
    assert_eq!(lines.get_line(0), 1);
    assert_eq!(lines.get_line(4), 1);
    assert_eq!(lines.get_line(5), 2);
    assert_eq!(lines.get_line(7), 2);
    assert_eq!(lines.get_line(9), 4);
    assert_eq!(lines.get_line(100), 4);
}

#[test]
fn line_map_lookup_is_monotonic() {
    let mut lines = LineMap::default();
    lines.add(0, 1);
    lines.add(4, 3);
    lines.add(8, 7);
    let mut last = 0;
    for k in 0..20 {
        let line = lines.get_line(k);
        assert!(line >= last);
        last = line;
    }
}

#[test]
fn chunk_write_and_get_line() {
    let mut chunk = Chunk::default();
    chunk.write(2, 1);
    chunk.write(2, 1);
    chunk.write(2, 3);
    assert_eq!(chunk.read(0), 2);
    assert_eq!(chunk.get_line(0), 1);
    assert_eq!(chunk.get_line(1), 1);
    assert_eq!(chunk.get_line(2), 3);
}

#[test]
fn opcode_bytes_round_trip() {
    let ops = [
        OpCode::Constant,
        OpCode::LongConstant,
        OpCode::Nil,
        OpCode::True,
        OpCode::False,
        OpCode::Pop,
        OpCode::GetGlobal,
        OpCode::GetLongGlobal,
        OpCode::DefineGlobal,
        OpCode::DefineLongGlobal,
        OpCode::SetGlobal,
        OpCode::SetLongGlobal,
        OpCode::Equal,
        OpCode::Greater,
        OpCode::Less,
        OpCode::Add,
        OpCode::Subtract,
        OpCode::Multiply,
        OpCode::Divide,
        OpCode::Remainder,
        OpCode::Not,
        OpCode::Negate,
        OpCode::Print,
        OpCode::Return,
    ];
    for (k, &op) in ops.iter().enumerate() {
        let b = chunk::opcode_to_byte(op);
        assert_eq!(b as usize, k);
        assert_eq!(chunk::opcode_from_byte(b), Some(op));
    }
    assert_eq!(chunk::opcode_from_byte(24), None);
    assert_eq!(chunk::opcode_from_byte(255), None);
}

#[test]
fn scanner_token_stream() {
    let mut sc = Scanner::new("var answer = 41.5 + 1; // trailing\n");
    let kinds: Vec<TokenKind> = (0..8).map(|_| sc.scan_token().kind).collect();
    assert_eq!(
        kinds,
        vec![
            TokenKind::Var,
            TokenKind::Identifier,
            TokenKind::Equal,
            TokenKind::Number,
            TokenKind::Plus,
            TokenKind::Number,
            TokenKind::Semicolon,
            TokenKind::Eof,
        ]
    );
}

#[test]
fn scanner_spans_and_lines() {
    let mut sc = Scanner::new("one\n two");
    let t1 = sc.scan_token();
    assert_eq!(t1.kind, TokenKind::Identifier);
    assert_eq!(t1.span, "one");
    assert_eq!(t1.line, 1);
    let t2 = sc.scan_token();
    assert_eq!(t2.span, "two");
    assert_eq!(t2.line, 2);
}

#[test]
fn scanner_two_char_operators() {
    let mut sc = Scanner::new("! != = == < <= > >=");
    let kinds: Vec<TokenKind> = (0..8).map(|_| sc.scan_token().kind).collect();
    assert_eq!(
        kinds,
        vec![
            TokenKind::Bang,
            TokenKind::BangEqual,
            TokenKind::Equal,
            TokenKind::EqualEqual,
            TokenKind::Less,
            TokenKind::LessEqual,
            TokenKind::Greater,
            TokenKind::GreaterEqual,
        ]
    );
}

#[test]
fn scanner_string_token_keeps_escaped_quote() {
    let mut sc = Scanner::new("\"a\\\"b\"");
    let t = sc.scan_token();
    assert_eq!(t.kind, TokenKind::String);
    assert_eq!(t.span, "\"a\\\"b\"");
}

#[test]
fn scanner_unterminated_string_at_eof() {
    let mut sc = Scanner::new("\"abc");
    let t = sc.scan_token();
    assert_eq!(t.kind, TokenKind::UnterminatedString);
}

#[test]
fn scanner_unexpected_character() {
    let mut sc = Scanner::new("@");
    assert_eq!(sc.scan_token().kind, TokenKind::UnexpectedCharacter);
}

#[test]
fn keyword_table() {
    assert_eq!(str_to_keyword("and"), Some(TokenKind::And));
    assert_eq!(str_to_keyword("while"), Some(TokenKind::While));
    assert_eq!(str_to_keyword("print"), Some(TokenKind::Print));
    assert_eq!(str_to_keyword("printx"), None);
    assert_eq!(str_to_keyword("pri"), None);
    assert_eq!(str_to_keyword(""), None);
}

#[test]
fn value_equality_and_truthiness() {
    let a = Value::of_string("abc".to_string());
    let b = Value::of_string("abc".to_string());
    let c = Value::of_string("abd".to_string());
    assert!(a.equals(&b));
    assert!(b.equals(&a));
    assert!(!a.equals(&c));
    assert!(a.equals(&a));
    assert!(!Value::Nil.equals(&Value::Boolean(false)));
    assert!(!Value::Boolean(true).equals(&Value::Number(1.0f64.to_bits())));
    assert!(Value::Nil.truthiness() == false);
    assert!(Value::Boolean(false).truthiness() == false);
    assert!(Value::Number(0.0f64.to_bits()).truthiness());
    assert!(a.truthiness());
}

#[test]
fn nan_is_not_equal_to_itself() {
    let nan = Value::Number(f64::NAN.to_bits());
    assert!(!nan.equals(&nan));
}

#[test]
fn value_display_forms() {
    assert_eq!(Value::Nil.display(), "nil");
    assert_eq!(Value::Boolean(true).display(), "true");
    assert_eq!(Value::Boolean(false).display(), "false");
    assert_eq!(Value::Number(7.0f64.to_bits()).display(), "7");
    assert_eq!(Value::of_string("hi".to_string()).display(), "hi");
}

#[test]
fn compile_accepts_and_rejects() {
    assert!(bylox::compile("print 1 + 2;").is_ok());
    let empty = bylox::compile("").unwrap();
    assert_eq!(empty.read(0), 23, "an empty program compiles to just Return");
    assert!(bylox::compile("print ;").is_err());
    assert!(bylox::compile("var ;").is_err());
}
