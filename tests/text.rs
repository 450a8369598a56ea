use pdf_parser::cmap::{bfchar_entries, CMapError};
use pdf_parser::lexer::Token;
use pdf_parser::number::Decimal;
use pdf_parser::operation::TextState;
use pdf_parser::postscript::lexer::parse as content;
use pdf_parser::postscript::parser::{
    collect_operations, collect_texts, get_one_string, get_texts, parse, parse_slice, DecodeError,
};
use pdf_parser::text::{handle_text_operation, text_runs, TextError};
use std::collections::HashMap;

fn whole(n: i128) -> Decimal {
    Decimal::new(n, 0)
}

fn code_map() -> HashMap<u16, char> {
    let mut m = HashMap::new();
    m.insert(0x0041u16, 'A');
    m
}

#[test]
fn operations_group_operands() {
    let ops = parse(content(b"/F0 11 Tf BT [(x)] TJ ET 5"));
    let names: Vec<&str> = ops.iter().map(|o| o.op.as_str()).collect();
    assert_eq!(names, vec!["Tf", "BT", "TJ", "ET"]);
    assert_eq!(ops[0].tokens, vec![Token::Key("F0".to_string()), Token::Number(whole(11))]);
    assert!(ops[1].tokens.is_empty());
    assert_eq!(ops[2].tokens.len(), 3);
    assert_eq!(
        collect_operations(content(b"q 1 0 0 1 5 5 cm Q")),
        vec!["q".to_string(), "cm".to_string(), "Q".to_string()]
    );
}

#[test]
fn text_operands_of_tj_and_tj() {
    let texts = get_texts(content(b"(a) Tj [(b)] TJ (c) '"));
    assert_eq!(texts.len(), 2);
    assert_eq!(texts[0], vec![Token::StringLiteral(b"a".to_vec())]);
}

#[test]
fn decodes_through_code_map() {
    let map = code_map();
    let s = get_one_string(Token::StringLiteral(vec![0x00, 0x41]), &map).unwrap();
    assert_eq!(s, Some("A".to_string()));
    assert_eq!(get_one_string(Token::Null, &map), Ok(None));
}

#[test]
fn decode_errors() {
    let map = code_map();
    assert_eq!(get_one_string(Token::StringLiteral(vec![0x00, 0x41, 0x00]), &map), Err(DecodeError::OddLength));
    assert_eq!(get_one_string(Token::StringLiteral(vec![0x00, 0x42]), &map), Err(DecodeError::MissingCode(0x42)));
}

#[test]
fn empty_code_map_passes_bytes_through() {
    let empty = HashMap::new();
    assert_eq!(get_one_string(Token::StringLiteral(b"Hi".to_vec()), &empty), Ok(Some("Hi".to_string())));
    assert_eq!(get_one_string(Token::BytesLiteral(b"Hi".to_vec()), &empty), Ok(None));
    assert_eq!(get_one_string(Token::BytesLiteral(vec![0xC3]), &code_map()), Ok(None));
    assert_eq!(
        parse_slice(vec![Token::StringLiteral(b"a".to_vec()), Token::Null, Token::StringLiteral(b"b".to_vec())], &empty),
        Ok(vec!["a".to_string(), "b".to_string()])
    );
    assert_eq!(
        collect_texts(content(b"BT [(He) -20 (llo)] TJ (x) Tj ET"), &empty),
        Ok(vec!["He".to_string(), "llo".to_string(), "x".to_string()])
    );
}

#[test]
fn one_text_object_gives_one_run() {
    let ops = parse(content(b"BT /F0 11 Tf 1 0 0 -1 70 78 Tm [(A)] TJ ET"));
    let runs = text_runs(ops, &HashMap::new()).unwrap();
    assert_eq!(runs.len(), 1);
    assert_eq!(runs[0].x, whole(70));
    assert_eq!(runs[0].y, whole(78));
    assert_eq!(runs[0].text, "A");
    assert_eq!(runs[0].font_size, whole(11));
}

#[test]
fn state_is_fresh_at_each_text_object() {
    let ops = parse(content(b"BT 1 0 0 1 5 6 Tm /F0 2 Tf [(ab)] TJ ET BT [(c)] TJ ET"));
    let runs = text_runs(ops, &HashMap::new()).unwrap();
    assert_eq!(runs.len(), 2);
    assert_eq!((runs[0].x, runs[0].y, runs[0].font_size), (whole(5), whole(6), whole(2)));
    assert_eq!((runs[1].x, runs[1].y, runs[1].font_size), (whole(0), whole(0), whole(0)));
}

#[test]
fn kerning_and_advance() {
    let mut state = TextState::new();
    let ops = parse(content(b"/F0 10 Tf 1 0 0 1 100 50 Tm [(ab) 500 (c)] TJ 2 3 Td"));
    for op in ops {
        handle_text_operation(op, &mut state, &HashMap::new()).unwrap();
    }
    // "ab" at 100, advance 2 * 10 = 20, kern 500/1000 * 10 = 5 back, "c" at 115, then +10, then Td.
    assert_eq!(state.get_pos(), (whole(127), whole(53)));
    let runs = state.drain();
    assert_eq!(runs.len(), 2);
    assert_eq!(runs[0].x, whole(100));
    assert_eq!(runs[1].x, whole(115));
    assert_eq!(runs[1].text, "c");
    assert!(state.drain().is_empty());
}

#[test]
fn fractional_kerning() {
    let mut state = TextState::new();
    let ops = parse(content(b"/F0 11 Tf [-250] TJ"));
    for op in ops {
        handle_text_operation(op, &mut state, &HashMap::new()).unwrap();
    }
    assert_eq!(state.get_pos().0, Decimal::new(275, 2));
}

#[test]
fn text_errors() {
    let mut state = TextState::new();
    let mut ops = parse(content(b"/F0 Tf"));
    assert_eq!(handle_text_operation(ops.remove(0), &mut state, &HashMap::new()), Err(TextError::BadOperand));
    let mut ops = parse(content(b"[(x)] TJ"));
    assert_eq!(
        handle_text_operation(ops.remove(0), &mut state, &code_map()),
        Err(TextError::Decode(DecodeError::OddLength))
    );
    state.set_pos(Decimal::new(i128::MAX, 0), whole(0));
    state.set_font_size(whole(1));
    let mut ops = parse(content(b"[(x)] TJ"));
    assert_eq!(handle_text_operation(ops.remove(0), &mut state, &HashMap::new()), Err(TextError::Overflow));
}

#[test]
fn bfchar_block_is_read() {
    let stream: &[u8] = b"begincmap\n2 beginbfchar\n<0041> <0061>\n<0003> <0020>\nendbfchar\n";
    assert_eq!(bfchar_entries(&vec![stream]), Ok(vec![(0x41, 'a'), (0x03, ' ')]));
    let none: &[u8] = b"no block here";
    assert_eq!(bfchar_entries(&vec![none]), Ok(vec![]));
    let short: &[u8] = b"3 beginbfchar\n<0041> <0061>\n";
    assert_eq!(bfchar_entries(&vec![short]), Err(CMapError::MissingEntries));
    let bad: &[u8] = b"1 beginbfchar\n<0041> 0061\n";
    assert_eq!(bfchar_entries(&vec![bad]), Err(CMapError::BadEntry));
    let surrogate: &[u8] = b"1 beginbfchar\n<0041> <D800>\n";
    assert_eq!(bfchar_entries(&vec![surrogate]), Err(CMapError::BadChar));
    let count: &[u8] = b"x beginbfchar\n";
    assert_eq!(bfchar_entries(&vec![count]), Err(CMapError::BadCount));
}

#[test]
fn empty_code_map_reads_utf8() {
    let empty = HashMap::new();
    assert_eq!(
        get_one_string(Token::StringLiteral(vec![0xC3, 0xA9]), &empty),
        Ok(Some("\u{e9}".to_string()))
    );
    assert_eq!(get_one_string(Token::StringLiteral(vec![0xC3]), &empty), Err(DecodeError::NotUtf8));
}

#[test]
fn hex_strings_are_not_text() {
    let empty = HashMap::new();
    assert_eq!(
        collect_texts(content(b"BT [(a) <c3> (b)] TJ ET"), &empty),
        Ok(vec!["a".to_string(), "b".to_string()])
    );
    let ops = parse(content(b"BT /F0 1 Tf [<0041>] TJ ET"));
    assert!(text_runs(ops, &code_map()).unwrap().is_empty());
}
