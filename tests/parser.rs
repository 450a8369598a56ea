use pdf_parser::lexer;
use pdf_parser::number::Decimal;
use pdf_parser::parser::{parse, Dict, ParseError, State, Value, PDF};
use std::io::Write;

fn number(n: i128) -> Value {
    Value::Number(Decimal::new(n, 0))
}

fn value_of(src: &[u8]) -> Result<Value, ParseError> {
    State::new(lexer::parse(src)).parse_value()
}

fn dict_of(v: Value) -> Dict {
    match v {
        Value::Dict(d) => d,
        other => panic!("not a dictionary: {other:?}"),
    }
}

fn zlib(data: &[u8]) -> Vec<u8> {
    let mut enc = flate2::write::ZlibEncoder::new(Vec::new(), flate2::Compression::default());
    enc.write_all(data).unwrap();
    enc.finish().unwrap()
}

fn streamed_object(id: usize, dict_extra: &str, data: &[u8]) -> Vec<u8> {
    let mut out = format!("{id} 0 obj\n<< /Length {} {dict_extra} >>\nstream\n", data.len()).into_bytes();
    out.extend_from_slice(data);
    out.extend_from_slice(b"\nendstream\nendobj\n");
    out
}

const TRAILER: &[u8] = b"xref\n0 8\n0000000000 65535 f \ntrailer\n<< /Size 8 /Root 1 0 R >>\nstartxref\n9\n%%EOF\n";

fn sample_document(content: &[u8]) -> Vec<u8> {
    let mut doc = b"%PDF-1.4\n%\xe2\xe3\xcf\xd3\n".to_vec();
    doc.extend_from_slice(b"1 0 obj\n<< /Type /Catalog /Pages 2 0 R >>\nendobj\n");
    doc.extend_from_slice(
        b"2 0 obj\n<< /Type /Pages /Kids [3 0 R] /Resources << /Font << /F0 5 0 R /F1 9 0 R >> >> >>\nendobj\n",
    );
    doc.extend_from_slice(b"3 0 obj\n<< /Type /Page /Contents 4 0 R /Kids [7 0 R] >>\nendobj\n");
    doc.extend_from_slice(&streamed_object(4, "/Filter /FlateDecode", &zlib(content)));
    doc.extend_from_slice(b"5 0 obj\n<< /Type /Font /DescendantFonts [6 0 R 9 0 R] >>\nendobj\n");
    doc.extend_from_slice(b"6 0 obj\n<< /Type /Font /FontDescriptor 8 0 R >>\nendobj\n");
    doc.extend_from_slice(b"7 0 obj\n<< /Type /Page >>\nendobj\n");
    doc.extend_from_slice(b"8 0 obj\n<< /Type /FontDescriptor >>\nendobj\n");
    doc.extend_from_slice(&streamed_object(10, "/Type /CMap", b"1 beginbfchar\n<0041> <0042>\nendbfchar"));
    doc.extend_from_slice(TRAILER);
    doc
}

fn ids(objs: &[&pdf_parser::Object]) -> Vec<(usize, usize)> {
    objs.iter().map(|o| o.id()).collect()
}

#[test]
fn parser_test() {
    let pdf = parse(&sample_document(b"BT ET")).unwrap();
    assert_eq!(pdf.get_objects().len(), 9);
    assert_eq!(pdf.get_meta().len(), 2);
    assert_eq!(pdf.get_meta().get("Size"), Some(&number(8)));
}

#[test]
fn parse_list() {
    assert_eq!(value_of(b"[1]").unwrap(), Value::List(vec![number(1)]))
}

#[test]
fn parse_trailer() {
    let value = value_of(
        b"<<
            /Size 12
            /Root 11 0 R
            /Info 9 0 R
          >>",
    )
    .unwrap();
    let value = dict_of(value);
    assert_eq!(value.len(), 3);
}

#[test]
fn parse_dict() {
    let value = dict_of(value_of(b"<< /Value 42 >>").unwrap());
    assert_eq!(value.len(), 1);
    assert_eq!(value.entries[0], ("Value".to_string(), number(42)));
}

#[test]
fn parse_mix() {
    let dict = dict_of(value_of(b"<< /a [4 0 R] /b 6 0 R >>").unwrap());
    assert_eq!(dict.len(), 2);
    assert_eq!(dict.get("a"), Some(&Value::List(vec![Value::Ref(4, 0)])));
    assert_eq!(dict.get("b"), Some(&Value::Ref(6, 0)));
}

#[test]
fn dict_with_one_zero_entry() {
    let dict = dict_of(value_of(b"<</abc 0>>").unwrap());
    assert_eq!(dict.len(), 1);
    assert_eq!(dict.get("abc"), Some(&number(0)));
}

#[test]
fn duplicate_key_last_wins() {
    let dict = dict_of(value_of(b"<< /a 1 /b 2 /a 3 >>").unwrap());
    assert_eq!(dict.len(), 2);
    assert_eq!(dict.get("a"), Some(&number(3)));
}

#[test]
fn value_errors() {
    assert_eq!(value_of(b"]"), Err(ParseError::UnexpectedToken(lexer::Token::ListEnd)));
    assert_eq!(value_of(b">>"), Err(ParseError::UnexpectedToken(lexer::Token::DictEnd)));
    assert_eq!(
        value_of(b"<< 1 2 >>"),
        Err(ParseError::ExpectedKey(lexer::Token::Number(Decimal::new(1, 0))))
    );
    assert_eq!(value_of(b"[1 2"), Err(ParseError::UnexpectedEnd));
    assert!(matches!(value_of(b"[1 \xff]"), Err(ParseError::Lex(_))));
}

#[test]
fn flate_stream_round_trip() {
    let plain = b"hello world";
    let packed = zlib(plain);
    let mut doc = streamed_object(1, "/Filter /FlateDecode", &packed);
    doc.extend_from_slice(TRAILER);
    let pdf = parse(&doc).unwrap();
    let obj = pdf.get(&(1, 0)).unwrap();
    assert_eq!(obj.stream(), &plain[..]);
    assert_ne!(obj.stream(), &packed[..]);
}

#[test]
fn raw_stream_is_copied() {
    let mut doc = streamed_object(1, "", b"raw bytes");
    doc.extend_from_slice(TRAILER);
    let pdf = parse(&doc).unwrap();
    assert_eq!(pdf.get(&(1, 0)).unwrap().stream(), b"raw bytes");
}

#[test]
fn document_errors() {
    let mut doc = b"1 0 obj\n<< /Filter /FlateDecode >>\nstream\nabc\nendstream\nendobj\n".to_vec();
    doc.extend_from_slice(TRAILER);
    assert_eq!(parse(&doc).err(), Some(ParseError::MissingLength));

    let mut doc = streamed_object(1, "/Filter /FlateDecode", b"not zlib!!");
    doc.extend_from_slice(TRAILER);
    assert_eq!(parse(&doc).err(), Some(ParseError::Inflate));

    let doc = b"1 0 obj\n<< >>\nendobj\nxref\n0 1\n".to_vec();
    assert_eq!(parse(&doc).err(), Some(ParseError::MissingTrailer));

    assert_eq!(parse(b"<< >>").err(), Some(ParseError::ExpectedObjectStart(lexer::Token::DictStart)));
    assert_eq!(
        parse(b"1 0 obj\n<< >> 5").err(),
        Some(ParseError::ExpectedStreamStartOrObjectEnd(Some(lexer::Token::Number(Decimal::new(5, 0)))))
    );
    assert_eq!(
        parse(b"1 0 obj\n<< >>").err(),
        Some(ParseError::ExpectedStreamStartOrObjectEnd(None))
    );
    let doc = b"1 0 obj\n<< /Length 2 >>\nstream\nab\nendobj\n".to_vec();
    assert_eq!(parse(&doc).err(), Some(ParseError::ExpectedStreamEnd(Some(lexer::Token::ObjectEnd))));
    let doc = b"xref\ntrailer\n/Size 1".to_vec();
    assert_eq!(
        parse(&doc).err(),
        Some(ParseError::ExpectedDictStart(Some(lexer::Token::Key("Size".to_string()))))
    );
    assert_eq!(parse(b"").err(), Some(ParseError::UnexpectedEnd));
}

#[test]
fn duplicate_object_last_wins() {
    let mut doc = b"1 0 obj\n<< /v 1 >>\nendobj\n1 0 obj\n<< /v 2 >>\nendobj\n".to_vec();
    doc.extend_from_slice(TRAILER);
    let pdf = parse(&doc).unwrap();
    assert_eq!(pdf.get_objects().len(), 1);
    assert_eq!(pdf.get(&(1, 0)).unwrap().dict_get("v"), Some(&number(2)));
}

#[test]
fn page_tree_queries() {
    let pdf = parse(&sample_document(b"BT ET")).unwrap();
    assert_eq!(pdf.get_pages().unwrap().id(), (2, 0));
    assert_eq!(ids(&pdf.get_pages_kids().unwrap()), vec![(3, 0)]);
    assert_eq!(ids(&pdf.get_pages_grand_kids().unwrap()), vec![(7, 0)]);
    assert_eq!(pdf.get_contents(), vec![&b"BT ET"[..]]);
    assert_eq!(pdf.get_contents_id(), vec![(4, 0)]);
}

#[test]
fn font_queries() {
    let pdf = parse(&sample_document(b"")).unwrap();
    let fonts = pdf.get_fonts();
    assert_eq!(fonts.len(), 1);
    assert_eq!(fonts[0].0, "F0");
    assert_eq!(fonts[0].1.id(), (5, 0));
    assert_eq!(ids(&pdf.get_descendant_fonts()), vec![(6, 0)]);
    assert_eq!(ids(&pdf.get_font_describtors()), vec![(8, 0)]);
}

#[test]
fn cmap_queries() {
    let pdf = parse(&sample_document(b"")).unwrap();
    assert_eq!(pdf.get_cmaps(), vec![&b"1 beginbfchar\n<0041> <0042>\nendbfchar"[..]]);
    assert_eq!(pdf.get_cmaps_lines(), vec!["1 beginbfchar\n<0041> <0042>\nendbfchar".to_string()]);
}

#[test]
fn nested_reference_path() {
    let mut doc = b"1 0 obj\n<< /A << /B [2 0 R] >> >>\nendobj\n2 0 obj\n<< >>\nendobj\n".to_vec();
    doc.extend_from_slice(b"xref\ntrailer\n<< /Root 1 0 R >>\n");
    let pdf = parse(&doc).unwrap();
    let refs = pdf.get_references();
    assert_eq!(refs.len(), 2);
    assert_eq!(refs[0].0, (0, 0));
    assert_eq!(refs[0].1, "Root");
    assert_eq!(refs[0].2.id(), (1, 0));
    assert_eq!(refs[1].0, (1, 0));
    assert_eq!(refs[1].1, "A/B[]");
    assert_eq!(refs[1].2.id(), (2, 0));
}

#[test]
fn dangling_references_give_empty_results() {
    let mut doc = b"1 0 obj\n<< /Kids [4 0 R] /x 5 0 R >>\nendobj\n".to_vec();
    doc.extend_from_slice(b"xref\ntrailer\n<< /Root 9 0 R >>\n");
    let pdf: PDF = parse(&doc).unwrap();
    assert!(pdf.get(&(9, 0)).is_none());
    assert!(pdf.get_pages().is_none());
    assert!(pdf.get_pages_kids().is_none());
    assert!(pdf.get_pages_grand_kids().is_none());
    assert!(pdf.get_contents().is_empty());
    assert!(pdf.get_contents_id().is_empty());
    assert!(pdf.get_fonts().is_empty());
    assert!(pdf.get_descendant_fonts().is_empty());
    assert!(pdf.get_font_describtors().is_empty());
    assert!(pdf.get_references().is_empty());
}

#[test]
fn nesting_is_bounded() {
    let deep = vec![b'['; 300];
    assert_eq!(value_of(&deep), Err(ParseError::TooDeep));
    let mut ok = vec![b'['; 10];
    ok.extend(vec![b']'; 10]);
    assert!(value_of(&ok).is_ok());
}

#[test]
fn identifiers_become_values() {
    assert_eq!(value_of(b"[<000000000000000000000000000000ff>]").unwrap(), Value::List(vec![Value::Id(255)]));
}

#[test]
fn dictionary_or_empty_per_call() {
    let mut doc = b"1 0 obj\n<< /A 1 /B [2] >>\nendobj\n2 0 obj\n7\nendobj\n".to_vec();
    doc.extend_from_slice(TRAILER);
    let pdf = parse(&doc).unwrap();
    let d = pdf.get(&(1, 0)).unwrap().dict_or_empty();
    assert_eq!(d.len(), 2);
    assert_eq!(d.get("B"), Some(&Value::List(vec![number(2)])));
    assert_eq!(pdf.get(&(2, 0)).unwrap().dict_or_empty().len(), 0);
    assert!(pdf.get(&(2, 0)).unwrap().dict().is_none());
}

#[test]
fn stream_length_past_the_end_is_an_error() {
    let doc = b"1 0 obj\n<< /Length 500 >>\nstream\nabc\nendstream\nendobj\n".to_vec();
    assert_eq!(parse(&doc).err(), Some(ParseError::StreamPastEnd));
}
