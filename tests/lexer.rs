use pdf_parser::lexer::{parse, LexErrorKind, State, Token};
use pdf_parser::number::Decimal;
use pdf_parser::postscript;

fn all_tokens(mut state: State) -> Vec<Token> {
    let mut out = Vec::new();
    while let Some(t) = state.get_next_token() {
        out.push(t);
    }
    out
}

fn num(mantissa: i128, scale: u32) -> Token {
    Token::Number(Decimal::new(mantissa, scale))
}

fn whole(n: i128) -> Token {
    num(n, 0)
}

fn key(s: &str) -> Token {
    Token::Key(s.to_string())
}

fn op(s: &str) -> Token {
    Token::Operator(s.to_string())
}

#[test]
fn test_number() {
    assert_eq!(parse(b"0.9505").get_next_token().unwrap(), num(9505, 4));
    assert_eq!(parse(b"1").get_next_token().unwrap(), whole(1));
    assert_eq!(parse(b"-1").get_next_token().unwrap(), whole(-1));
    assert_eq!(parse(b"1.5").get_next_token().unwrap(), num(15, 1));
    assert_eq!(parse(b"1.5 2 3 4").get_next_token().unwrap(), num(15, 1));
    assert_eq!(parse(b"42").get_next_token().unwrap(), whole(42));
    assert_eq!(parse(b"6 6").get_next_token().unwrap(), whole(6));
}

#[test]
fn test_multiple_tokens() {
    let token = {
        let mut parser = parse(b"-1 2");
        parser.get_next_token();
        parser.get_next_token()
    };
    assert_eq!(token, Some(whole(2)));
    let token = {
        let mut parser = parse(b"1");
        parser.get_next_token();
        parser.get_next_token()
    };
    assert_eq!(token, None);
    let token = {
        let mut parser = parse(b"-1 2 3");
        parser.get_next_token();
        parser.get_next_token();
        parser.get_next_token()
    };
    assert_eq!(token, Some(whole(3)));

    let mut parser = parse(b"1 2 3 4 5");
    assert_eq!(parser.get_next_token().unwrap(), whole(1));
    assert_eq!(parser.get_next_token().unwrap(), whole(2));
    assert_eq!(parser.get_next_token().unwrap(), whole(3));
    assert_eq!(parser.get_next_token().unwrap(), whole(4));
    assert_eq!(parser.get_next_token().unwrap(), whole(5));
    assert_eq!(parser.get_next_token(), None);
}

#[test]
fn test_object() {
    assert_eq!(parse(b"1 2 obj\n").get_next_token().unwrap(), Token::ObjectStart((1, 2)));
    assert_eq!(parse(b"\nendobj\n").get_next_token().unwrap(), Token::ObjectEnd);
}

#[test]
fn test_key_or_string() {
    assert_eq!(parse(b"/abc").get_next_token().unwrap(), key("abc"));
    assert_eq!(
        parse(b"(I love you)").get_next_token().unwrap(),
        Token::StringLiteral(b"I love you".to_vec())
    );
}

#[test]
fn test_dict_value_0() {
    let expr = vec![Token::DictStart, key("abc"), whole(0), Token::DictEnd];
    assert_eq!(all_tokens(parse(b"<</abc 0>>")), expr);
}

#[test]
fn test_mixed() {
    let expr = vec![
        Token::DictStart,
        key("a"),
        Token::ListStart,
        Token::Ref((4, 0)),
        Token::ListEnd,
        key("b"),
        Token::Ref((6, 0)),
        Token::DictEnd,
    ];
    assert_eq!(all_tokens(parse(b"<< /a [4 0 R] /b 6 0 R >>")), expr);

    let expr = vec![Token::ListStart, num(9505, 4), whole(1), num(10888, 4), Token::ListEnd];
    assert_eq!(all_tokens(parse(b"[0.9505 1 1.0888]")), expr)
}

#[test]
fn test_bytestring() {
    let mut state = postscript::lexer::parse(b"<200d0a>");
    assert_eq!(state.get_next_token().unwrap(), Token::BytesLiteral(b" \r\n".to_vec()));
}

#[test]
fn lexer_test() {
    let state = postscript::lexer::parse(
        br#"
        1 0 0 -1 0 841.89105 cm
        /srgb cs
        0 0 0 scn
        /F0 11 Tf
        BT
        1 0 0 -1 70.837906 78.400406 Tm
        [(??)] TJ
        ET
        "#,
    );
    let list = vec![
        whole(1),
        whole(0),
        whole(0),
        whole(-1),
        whole(0),
        num(84189105, 5),
        op("cm"),
        key("srgb"),
        op("cs"),
        whole(0),
        whole(0),
        whole(0),
        op("scn"),
        key("F0"),
        whole(11),
        op("Tf"),
        op("BT"),
        whole(1),
        whole(0),
        whole(0),
        whole(-1),
        num(70837906, 6),
        num(78400406, 6),
        op("Tm"),
        Token::ListStart,
        Token::StringLiteral(b"??".to_vec()),
        Token::ListEnd,
        op("TJ"),
        op("ET"),
    ];
    assert_eq!(all_tokens(state), list);
}

#[test]
fn lone_integers_are_numbers() {
    for n in [0usize, 7, 42, 1000, usize::MAX] {
        let text = n.to_string();
        let mut state = parse(text.as_bytes());
        assert_eq!(state.get_next_token(), Some(Token::Number(Decimal::from_usize(n))));
        assert_eq!(state.get_next_token(), None);
    }
}

#[test]
fn reference_header() {
    assert_eq!(all_tokens(parse(b"4 0 R")), vec![Token::Ref((4, 0))]);
}

#[test]
fn object_header_flushes_older_integers() {
    assert_eq!(all_tokens(parse(b"7 1 2 obj\n")), vec![whole(7), Token::ObjectStart((1, 2))]);
}

#[test]
fn negative_number_flushes_pending() {
    assert_eq!(all_tokens(parse(b"1 2 -3")), vec![whole(1), whole(2), whole(-3)]);
    assert_eq!(parse(b"-1").get_next_token(), Some(whole(-1)));
}

#[test]
fn integers_before_a_key_keep_their_order() {
    assert_eq!(all_tokens(parse(b"0 0 /X 5")), vec![whole(0), whole(0), key("X"), whole(5)]);
}

#[test]
fn names_end_at_delimiters() {
    assert_eq!(all_tokens(parse(b"/Type/Page")), vec![key("Type"), key("Page")]);
}

#[test]
fn escaped_parens_stay_in_strings() {
    assert_eq!(
        all_tokens(parse(br"(a\)b\(c)")),
        vec![Token::StringLiteral(b"a)b(c".to_vec())]
    );
}

#[test]
fn keywords() {
    assert_eq!(
        all_tokens(parse(b"null true false xref\n")),
        vec![Token::Null, Token::Bool(true), Token::Bool(false), Token::XRef]
    );
    assert_eq!(all_tokens(parse(b">>\nstream\n")), vec![Token::DictEnd, Token::StreamStart]);
}

#[test]
fn non_ascii_is_an_error() {
    let mut state = parse(b"/a \xff");
    assert_eq!(state.get_next_token(), Some(key("a")));
    assert_eq!(state.get_next_token(), None);
    let e = state.error().unwrap();
    assert_eq!(e.kind, LexErrorKind::NonAscii);
    assert_eq!(e.offset, 3);
}

#[test]
fn unknown_word_is_an_error_in_documents_only() {
    let mut state = parse(b"12 foo");
    assert_eq!(state.get_next_token(), Some(whole(12)));
    assert_eq!(state.get_next_token(), None);
    assert_eq!(state.error().unwrap().kind, LexErrorKind::Unrecognized);
    assert_eq!(state.error().unwrap().offset, 3);
    assert_eq!(all_tokens(postscript::lexer::parse(b"12 foo")), vec![whole(12), op("foo")]);
}

#[test]
fn odd_hex_string_is_an_error() {
    let mut state = parse(b"<abc>");
    assert_eq!(state.get_next_token(), None);
    assert_eq!(state.error().unwrap().kind, LexErrorKind::Unrecognized);
}

#[test]
fn too_large_number_is_an_error() {
    let mut state = parse(b"99999999999999999999999999");
    assert_eq!(state.get_next_token(), None);
    assert_eq!(state.error().unwrap().kind, LexErrorKind::NumberOutOfRange);
}

#[test]
fn peek_and_push_back() {
    let mut state = parse(b"xref\n");
    assert!(!state.is(Token::ObjectEnd));
    assert!(state.is(Token::XRef));
    assert_eq!(state.get_next_token(), Some(Token::XRef));
    let mut state = parse(b"/k");
    state.swallow(Token::Null);
    assert_eq!(all_tokens(state), vec![Token::Null, key("k")]);
}

#[test]
fn raw_reads() {
    let mut state = parse(b"abcdef\nline two\nend");
    let mut buf = Vec::new();
    assert_eq!(state.get_fixed_length_stream(3, &mut buf), 3);
    assert_eq!(buf, b"abc".to_vec());
    assert_eq!(state.get_fixed_length_stream(100, &mut buf), 0);
    assert_eq!(state.get_ascii_line(), Some("def".to_string()));
    assert_eq!(state.get_ascii_line(), Some("line two".to_string()));
    assert_eq!(state.get_ascii_line(), Some("end".to_string()));
    assert_eq!(state.get_ascii_line(), None);
    assert_eq!(state.index(), state.len());
}

#[test]
fn decimal_arithmetic() {
    let a = Decimal::new(15, 1);
    let b = Decimal::new(225, 2);
    assert_eq!(a.checked_add(b), Some(Decimal::new(375, 2)));
    assert_eq!(b.checked_sub(a), Some(Decimal::new(75, 2)));
    assert_eq!(a.checked_mul(b), Some(Decimal::new(3375, 3)));
    assert_eq!(Decimal::new(1500, 3), Decimal { mantissa: 15, scale: 1 });
    assert_eq!(Decimal::new(-20, 1), Decimal { mantissa: -2, scale: 0 });
    assert_eq!(Decimal::new(i128::MAX, 0).checked_add(Decimal::new(1, 0)), None);
}

#[test]
fn identifiers_in_documents() {
    assert_eq!(
        all_tokens(parse(b"<0123456789abcdef0123456789ABCDEF>")),
        vec![Token::Id(0x0123456789abcdef0123456789abcdef)]
    );
    assert_eq!(
        all_tokens(postscript::lexer::parse(b"<0123456789abcdef0123456789ABCDEF>")).len(),
        1
    );
    assert_eq!(all_tokens(parse(b"<00ff>")), vec![Token::BytesLiteral(vec![0x00, 0xff])]);
}
