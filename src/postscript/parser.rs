use crate::lexer::{self, lex_wf, next_spec, LexModel, State, Token, TokenModel};
use crate::parser::lex_rank;
use std::collections::HashMap;
use vstd::prelude::*;
use vstd::string::*;

verus! {

broadcast use {
    vstd::seq_lib::group_seq_properties,
    vstd::std_specs::vec::group_vec_axioms,
    vstd::std_specs::hash::group_hash_axioms,
};

/// An operator with the operand tokens that came before it.
pub struct Operation {
    pub op: String,
    pub tokens: Vec<Token>,
}

pub struct OperationModel {
    pub op: Seq<char>,
    pub tokens: Seq<TokenModel>,
}

impl View for Operation {
    type V = OperationModel;

    open spec fn view(&self) -> OperationModel {
        OperationModel { op: self.op@, tokens: lexer::tokens_view(self.tokens@) }
    }
}

pub open spec fn operations_view(v: Seq<Operation>) -> Seq<OperationModel> {
    v.map_values(|o: Operation| o@)
}

/// Every token that the lexer hands out from state `m` on.
pub open spec fn token_stream(m: LexModel) -> Seq<TokenModel>
    decreases lex_rank(m),
{
    let (t, m1) = next_spec(m);
    match t {
        None => Seq::empty(),
        Some(t) => if lex_rank(m1) < lex_rank(m) {
            seq![t] + token_stream(m1)
        } else {
            Seq::empty()
        },
    }
}

/// The operations of a token sequence: each operator closes one, with the
/// operands read since the last operator (`acc` holds those read so far).
/// Operands after the last operator belong to no operation.
pub open spec fn group_ops(ts: Seq<TokenModel>, acc: Seq<TokenModel>) -> Seq<OperationModel>
    decreases ts.len(),
{
    if ts.len() == 0 {
        Seq::empty()
    } else {
        match ts[0] {
            TokenModel::Operator(op) => seq![OperationModel { op, tokens: acc }] + group_ops(
                ts.drop_first(),
                Seq::empty(),
            ),
            t => group_ops(ts.drop_first(), acc.push(t)),
        }
    }
}

pub open spec fn operations_spec(m: LexModel) -> Seq<OperationModel> {
    group_ops(token_stream(m), Seq::empty())
}

proof fn lemma_token_stream_step(m: LexModel)
    requires
        lex_wf(m),
    ensures
        lex_wf(next_spec(m).1),
        match next_spec(m).0 {
            Some(t) => token_stream(m) == seq![t] + token_stream(next_spec(m).1),
            None => token_stream(m) == Seq::<TokenModel>::empty(),
        },
        next_spec(m).0 is Some ==> lex_rank(next_spec(m).1) < lex_rank(m),
{
    lexer::lemma_next_spec_wf(m);
    lexer::lemma_next_spec_measure(m);
}

/// The operations of a content stream, in order.
pub fn parse(state: State) -> (r: Vec<Operation>)
    requires
        state.wf(),
    ensures
        operations_view(r@) == operations_spec(state@),
{
    let mut state = state;
    collect_ops(&mut state)
}

fn collect_ops(state: &mut State) -> (r: Vec<Operation>)
    requires
        old(state).wf(),
    ensures
        operations_view(r@) == operations_spec(old(state)@),
{
    let ghost m0 = state@;
    let mut tokens: Vec<Token> = Vec::new();
    let mut ret: Vec<Operation> = Vec::new();
    assert(lexer::tokens_view(tokens@) =~= Seq::<TokenModel>::empty());
    assert(operations_view(ret@) =~= Seq::<OperationModel>::empty());
    assert(operations_view(ret@) + group_ops(token_stream(state@), lexer::tokens_view(tokens@))
        =~= operations_spec(m0));
    loop
        invariant
            state.wf(),
            m0 == old(state)@,
            operations_view(ret@) + group_ops(token_stream(state@), lexer::tokens_view(tokens@))
                == operations_spec(m0),
        decreases lex_rank(state@),
    {
        let ghost m = state@;
        proof {
            lemma_token_stream_step(m);
        }
        let x = match state.get_next_token() {
            Some(x) => x,
            None => {
                assert(operations_view(ret@) =~= operations_view(ret@) + Seq::<OperationModel>::empty());
                return ret;
            },
        };
        let ghost rest = token_stream(state@);
        assert((seq![x@] + rest).drop_first() =~= rest);
        match x {
            Token::Operator(op) => {
                let ghost before = operations_view(ret@);
                let ghost tv = lexer::tokens_view(tokens@);
                let operands = tokens;
                tokens = Vec::new();
                let o = Operation { op, tokens: operands };
                ret.push(o);
                assert(operations_view(ret@) =~= before.push(OperationModel { op: o@.op, tokens: tv }));
                assert(lexer::tokens_view(tokens@) =~= Seq::<TokenModel>::empty());
                assert(before + (seq![OperationModel { op: o@.op, tokens: tv }] + group_ops(rest, Seq::empty())) =~= before.push(OperationModel { op: o@.op, tokens: tv }) + group_ops(rest, Seq::empty()));
            },
            x => {
                let ghost before = lexer::tokens_view(tokens@);
                let ghost xv = x@;
                tokens.push(x);
                assert(lexer::tokens_view(tokens@) =~= before.push(xv));
            },
        }
    }
}

/// The operand tokens of the text-showing operations (`TJ` and `Tj`).
pub fn get_texts(state: State) -> (r: Vec<Vec<Token>>)
    requires
        state.wf(),
    ensures
        r@.map_values(|v: Vec<Token>| lexer::tokens_view(v@)) == text_operands(operations_spec(state@)),
{
    let operations = parse(state);
    let ghost ov = operations_view(operations@);
    let mut ops = operations;
    let mut out: Vec<Vec<Token>> = Vec::new();
    // The operations are moved out from the back of a reversed copy, one at a time.
    let mut rev: Vec<Operation> = Vec::new();
    while ops.len() > 0
        invariant
            ov == operations_view(ops@) + operations_view(rev@).reverse(),
        decreases ops@.len(),
    {
        let ghost before_ops = operations_view(ops@);
        let ghost before_rev = operations_view(rev@);
        let o = ops.pop().unwrap();
        proof {
            assert(before_ops =~= operations_view(ops@).push(o@));
        }
        rev.push(o);
        assert(operations_view(rev@) =~= before_rev.push(o@));
        assert(operations_view(rev@).reverse() =~= seq![o@] + before_rev.reverse());
    }
    assert(ov =~= operations_view(rev@).reverse());
    assert(out@.map_values(|v: Vec<Token>| lexer::tokens_view(v@)) =~= Seq::<Seq<TokenModel>>::empty());
    let mut k: usize = 0;
    let n = rev.len();
    while rev.len() > 0
        invariant
            ov == ov.subrange(0, k as int) + operations_view(rev@).reverse(),
            k + rev@.len() == n,
            n == ov.len(),
            out@.map_values(|v: Vec<Token>| lexer::tokens_view(v@)) == text_operands(ov.subrange(0, k as int)),
        decreases rev@.len(),
    {
        let ghost before_rev = operations_view(rev@);
        let o = rev.pop().unwrap();
        assert(before_rev =~= operations_view(rev@).push(o@));
        assert(before_rev.reverse() =~= seq![o@] + operations_view(rev@).reverse());
        assert(ov[k as int] == o@);
        assert(ov.subrange(0, k + 1).drop_last() =~= ov.subrange(0, k as int));
        let is_text = str_eq_literal(&o.op, "TJ") || str_eq_literal(&o.op, "Tj");
        if is_text {
            let ghost before = out@.map_values(|v: Vec<Token>| lexer::tokens_view(v@));
            let ghost tv = o@.tokens;
            out.push(o.tokens);
            assert(out@.map_values(|v: Vec<Token>| lexer::tokens_view(v@)) =~= before.push(tv));
        }
        k = k + 1;
        assert(ov =~= ov.subrange(0, k as int) + operations_view(rev@).reverse());
    }
    assert(ov.subrange(0, k as int) =~= ov);
    out
}

pub open spec fn is_text_op(op: Seq<char>) -> bool {
    op == "TJ"@ || op == "Tj"@
}

/// The operands of the text-showing operations among `ops`.
pub open spec fn text_operands(ops: Seq<OperationModel>) -> Seq<Seq<TokenModel>>
    decreases ops.len(),
{
    if ops.len() == 0 {
        Seq::empty()
    } else if is_text_op(ops.last().op) {
        text_operands(ops.drop_last()).push(ops.last().tokens)
    } else {
        text_operands(ops.drop_last())
    }
}

fn str_eq_literal(s: &String, lit: &str) -> (r: bool)
    ensures
        r == (s@ == lit@),
{
    crate::parser::str_eq(s.as_str(), lit)
}

/// The names of the operators of a content stream, in order.
pub fn collect_operations(state: State) -> (r: Vec<String>)
    requires
        state.wf(),
    ensures
        r@.map_values(|s: String| s@) == operations_spec(state@).map_values(|o: OperationModel| o.op),
{
    let operations = parse(state);
    let ghost ov = operations_view(operations@);
    let mut out: Vec<String> = Vec::new();
    let mut i: usize = 0;
    while i < operations.len()
        invariant
            i <= operations@.len(),
            ov == operations_view(operations@),
            out@.map_values(|s: String| s@) == ov.subrange(0, i as int).map_values(|o: OperationModel| o.op),
        decreases operations@.len() - i,
    {
        let name = operations[i].op.clone();
        let ghost before = out@.map_values(|s: String| s@);
        out.push(name);
        assert(out@.map_values(|s: String| s@) =~= before.push(ov[i as int].op));
        assert(ov.subrange(0, i + 1).map_values(|o: OperationModel| o.op) =~= ov.subrange(0, i as int).map_values(|o: OperationModel| o.op).push(ov[i as int].op));
        i = i + 1;
    }
    assert(ov.subrange(0, i as int) =~= ov);
    out
}


// ---------------------------------------------------------------------
// Decoding strings through a code map

#[derive(Clone, Copy, Debug, PartialEq, Eq, Structural)]
pub enum DecodeError {
    /// The string's length is odd, so its last byte is half a code.
    OddLength,
    /// The code map has no entry for this code.
    MissingCode(u16),
    /// Without a code map, the bytes are not UTF-8 text.
    NotUtf8,
}

/// The text of `b` read as big-endian two-byte codes through `map`.
pub open spec fn decode_codes(b: Seq<u8>, map: Map<u16, char>) -> Result<Seq<char>, DecodeError>
    decreases b.len(),
{
    if b.len() == 0 {
        Ok(Seq::empty())
    } else if b.len() == 1 {
        Err(DecodeError::OddLength)
    } else {
        let code = (b[0] * 256 + b[1]) as u16;
        if map.contains_key(code) {
            match decode_codes(b.subrange(2, b.len() as int), map) {
                Ok(rest) => Ok(seq![map[code]] + rest),
                Err(e) => Err(e),
            }
        } else {
            Err(DecodeError::MissingCode(code))
        }
    }
}

/// The text that UTF-8 bytes encode, or `None` where they are not UTF-8.
pub uninterp spec fn utf8_text(b: Seq<u8>) -> Option<Seq<char>>;

/// Relies on `String::from_utf8`: the text of the bytes where they are
/// valid UTF-8, an error otherwise.
#[verifier::external_body]
fn utf8_decode(b: Vec<u8>) -> (r: Option<String>)
    ensures
        match r {
            Some(s) => utf8_text(b@) == Some(s@),
            None => utf8_text(b@) is None,
        },
{
    String::from_utf8(b).ok()
}

pub(crate) fn copy_bytes(b: &Vec<u8>) -> (r: Vec<u8>)
    ensures
        r@ == b@,
{
    let mut out: Vec<u8> = Vec::new();
    let mut i: usize = 0;
    while i < b.len()
        invariant
            i <= b@.len(),
            out@ == b@.subrange(0, i as int),
        decreases b@.len() - i,
    {
        out.push(b[i]);
        assert(out@ =~= b@.subrange(0, i + 1));
        i = i + 1;
    }
    assert(out@ =~= b@);
    out
}

/// The text of a string's bytes: through the code map, or, where the map
/// is empty, the bytes read as UTF-8 text.
pub open spec fn decode_spec(b: Seq<u8>, map: Map<u16, char>) -> Result<Seq<char>, DecodeError> {
    if map.is_empty() {
        match utf8_text(b) {
            Some(t) => Ok(t),
            None => Err(DecodeError::NotUtf8),
        }
    } else {
        decode_codes(b, map)
    }
}

/// The text of a literal `( ... )` string token; `None` for any other
/// token, hex strings included.
pub open spec fn one_string(t: TokenModel, map: Map<u16, char>) -> Result<Option<Seq<char>>, DecodeError> {
    match t {
        TokenModel::StringLiteral(b) => match decode_spec(b, map) {
            Ok(s) => Ok(Some(s)),
            Err(e) => Err(e),
        },
        _ => Ok(None),
    }
}

fn decode_codes_exec(b: &Vec<u8>, babel: &HashMap<u16, char>) -> (r: Result<String, DecodeError>)
    ensures
        match r {
            Ok(s) => decode_codes(b@, babel@) == Ok::<Seq<char>, DecodeError>(s@),
            Err(e) => decode_codes(b@, babel@) == Err::<Seq<char>, DecodeError>(e),
        },
{
    let mut out = String::new();
    let mut i: usize = 0;
    assert(b@.subrange(0, b@.len() as int) =~= b@);
    assert(out@ + Seq::<char>::empty() =~= out@);
    while i < b.len()
        invariant
            i <= b@.len(),
            decode_codes(b@, babel@) == match decode_codes(b@.subrange(i as int, b@.len() as int), babel@) {
                Ok(rest) => Ok(out@ + rest),
                Err(e) => Err(e),
            },
        decreases b@.len() - i,
    {
        let ghost rest = b@.subrange(i as int, b@.len() as int);
        if i + 1 >= b.len() {
            return Err(DecodeError::OddLength);
        }
        let code: u16 = b[i] as u16 * 256 + b[i + 1] as u16;
        assert(code == (rest[0] * 256 + rest[1]) as u16);
        assert(rest.subrange(2, rest.len() as int) =~= b@.subrange(i + 2, b@.len() as int));
        match babel.get(&code) {
            Some(c) => {
                let ghost before = out@;
                lexer::push_char(&mut out, *c);
                proof {
                    match decode_codes(b@.subrange(i + 2, b@.len() as int), babel@) {
                        Ok(r2) => {
                            assert(before + (seq![*c] + r2) =~= out@ + r2);
                        },
                        Err(_) => {},
                    }
                }
            },
            None => {
                return Err(DecodeError::MissingCode(code));
            },
        }
        i = i + 2;
    }
    assert(out@ + Seq::<char>::empty() =~= out@);
    Ok(out)
}

fn decode_exec(b: &Vec<u8>, babel: &HashMap<u16, char>) -> (r: Result<String, DecodeError>)
    ensures
        match r {
            Ok(s) => decode_spec(b@, babel@) == Ok::<Seq<char>, DecodeError>(s@),
            Err(e) => decode_spec(b@, babel@) == Err::<Seq<char>, DecodeError>(e),
        },
{
    if babel.is_empty() {
        match utf8_decode(copy_bytes(b)) {
            Some(t) => Ok(t),
            None => Err(DecodeError::NotUtf8),
        }
    } else {
        decode_codes_exec(b, babel)
    }
}

/// The text of a literal string token through the code map; `Ok(None)`
/// for any other token, hex strings included.
pub fn get_one_string(token: Token, babel: &HashMap<u16, char>) -> (r: Result<Option<String>, DecodeError>)
    ensures
        match r {
            Ok(Some(s)) => one_string(token@, babel@) == Ok::<Option<Seq<char>>, DecodeError>(Some(s@)),
            Ok(None) => one_string(token@, babel@) == Ok::<Option<Seq<char>>, DecodeError>(None),
            Err(e) => one_string(token@, babel@) == Err::<Option<Seq<char>>, DecodeError>(e),
        },
{
    token_text(&token, babel)
}

/// As `get_one_string`, on a borrowed token.
pub fn token_text(token: &Token, babel: &HashMap<u16, char>) -> (r: Result<Option<String>, DecodeError>)
    ensures
        match r {
            Ok(Some(s)) => one_string(token@, babel@) == Ok::<Option<Seq<char>>, DecodeError>(Some(s@)),
            Ok(None) => one_string(token@, babel@) == Ok::<Option<Seq<char>>, DecodeError>(None),
            Err(e) => one_string(token@, babel@) == Err::<Option<Seq<char>>, DecodeError>(e),
        },
{
    let bytes = match token {
        Token::StringLiteral(b) => b,
        _ => {
            return Ok(None);
        },
    };
    match decode_exec(bytes, babel) {
        Ok(s) => Ok(Some(s)),
        Err(e) => Err(e),
    }
}

/// The texts of the string tokens among `ts`.
pub open spec fn slice_texts(ts: Seq<TokenModel>, map: Map<u16, char>) -> Result<Seq<Seq<char>>, DecodeError>
    decreases ts.len(),
{
    if ts.len() == 0 {
        Ok(Seq::empty())
    } else {
        match slice_texts(ts.drop_last(), map) {
            Err(e) => Err(e),
            Ok(rest) => match one_string(ts.last(), map) {
                Err(e) => Err(e),
                Ok(Some(s)) => Ok(rest.push(s)),
                Ok(None) => Ok(rest),
            },
        }
    }
}

pub open spec fn strings_view(v: Seq<String>) -> Seq<Seq<char>> {
    v.map_values(|s: String| s@)
}

proof fn lemma_slice_texts_err(ts: Seq<TokenModel>, map: Map<u16, char>, n: nat, e: DecodeError)
    requires
        n <= ts.len(),
        slice_texts(ts.subrange(0, n as int), map) == Err::<Seq<Seq<char>>, DecodeError>(e),
    ensures
        slice_texts(ts, map) == Err::<Seq<Seq<char>>, DecodeError>(e),
    decreases ts.len() - n,
{
    if n < ts.len() {
        assert(ts.subrange(0, n + 1 as int).drop_last() =~= ts.subrange(0, n as int));
        lemma_slice_texts_err(ts, map, n + 1, e);
    } else {
        assert(ts.subrange(0, n as int) =~= ts);
    }
}

/// The texts of the string tokens of `slice`, in order.
pub fn parse_slice(slice: Vec<Token>, babel: &HashMap<u16, char>) -> (r: Result<Vec<String>, DecodeError>)
    ensures
        match r {
            Ok(v) => slice_texts(lexer::tokens_view(slice@), babel@) == Ok::<Seq<Seq<char>>, DecodeError>(strings_view(v@)),
            Err(e) => slice_texts(lexer::tokens_view(slice@), babel@) == Err::<Seq<Seq<char>>, DecodeError>(e),
        },
{
    let ghost tv = lexer::tokens_view(slice@);
    let mut rest = slice;
    let mut rev: Vec<Token> = Vec::new();
    while rest.len() > 0
        invariant
            tv == lexer::tokens_view(rest@) + lexer::tokens_view(rev@).reverse(),
        decreases rest@.len(),
    {
        let ghost br = lexer::tokens_view(rest@);
        let ghost bv = lexer::tokens_view(rev@);
        let t = rest.pop().unwrap();
        assert(br =~= lexer::tokens_view(rest@).push(t@));
        rev.push(t);
        assert(lexer::tokens_view(rev@) =~= bv.push(t@));
        assert(lexer::tokens_view(rev@).reverse() =~= seq![t@] + bv.reverse());
    }
    assert(tv =~= lexer::tokens_view(rev@).reverse());
    let n = rev.len();
    let mut k: usize = 0;
    let mut ret: Vec<String> = Vec::new();
    assert(strings_view(ret@) =~= Seq::<Seq<char>>::empty());
    while rev.len() > 0
        invariant
            k + rev@.len() == n,
            n == tv.len(),
            tv == lexer::tokens_view(slice@),
            tv == tv.subrange(0, k as int) + lexer::tokens_view(rev@).reverse(),
            slice_texts(tv.subrange(0, k as int), babel@) == Ok::<Seq<Seq<char>>, DecodeError>(strings_view(ret@)),
        decreases rev@.len(),
    {
        let ghost bv = lexer::tokens_view(rev@);
        let t = rev.pop().unwrap();
        assert(bv =~= lexer::tokens_view(rev@).push(t@));
        assert(bv.reverse() =~= seq![t@] + lexer::tokens_view(rev@).reverse());
        assert(tv[k as int] == t@);
        assert(tv.subrange(0, k + 1).drop_last() =~= tv.subrange(0, k as int));
        let ghost tm = t@;
        match get_one_string(t, babel) {
            Ok(Some(s)) => {
                let ghost before = strings_view(ret@);
                let ghost sv = s@;
                ret.push(s);
                assert(strings_view(ret@) =~= before.push(sv));
            },
            Ok(None) => {},
            Err(e) => {
                assert(tv.subrange(0, k + 1).last() == tm);
                proof {
                    lemma_slice_texts_err(tv, babel@, (k + 1) as nat, e);
                }
                return Err(e);
            },
        }
        k = k + 1;
        assert(tv =~= tv.subrange(0, k as int) + lexer::tokens_view(rev@).reverse());
    }
    assert(tv.subrange(0, k as int) =~= tv);
    Ok(ret)
}


/// The texts of the string tokens of each segment, one segment after the other.
pub open spec fn texts_of(segs: Seq<Seq<TokenModel>>, map: Map<u16, char>) -> Result<Seq<Seq<char>>, DecodeError>
    decreases segs.len(),
{
    if segs.len() == 0 {
        Ok(Seq::empty())
    } else {
        match texts_of(segs.drop_last(), map) {
            Err(e) => Err(e),
            Ok(rest) => match slice_texts(segs.last(), map) {
                Err(e) => Err(e),
                Ok(t) => Ok(rest + t),
            },
        }
    }
}

proof fn lemma_texts_of_err(segs: Seq<Seq<TokenModel>>, map: Map<u16, char>, n: nat, e: DecodeError)
    requires
        n <= segs.len(),
        texts_of(segs.subrange(0, n as int), map) == Err::<Seq<Seq<char>>, DecodeError>(e),
    ensures
        texts_of(segs, map) == Err::<Seq<Seq<char>>, DecodeError>(e),
    decreases segs.len() - n,
{
    if n < segs.len() {
        assert(segs.subrange(0, n + 1 as int).drop_last() =~= segs.subrange(0, n as int));
        lemma_texts_of_err(segs, map, n + 1, e);
    } else {
        assert(segs.subrange(0, n as int) =~= segs);
    }
}

pub open spec fn collect_texts_spec(m: LexModel, map: Map<u16, char>) -> Result<Seq<Seq<char>>, DecodeError> {
    texts_of(text_operands(operations_spec(m)), map)
}

/// The texts shown by the `TJ` and `Tj` operations of a content stream.
pub fn collect_texts(state: State, babel: &HashMap<u16, char>) -> (r: Result<Vec<String>, DecodeError>)
    requires
        state.wf(),
    ensures
        match r {
            Ok(v) => collect_texts_spec(state@, babel@) == Ok::<Seq<Seq<char>>, DecodeError>(strings_view(v@)),
            Err(e) => collect_texts_spec(state@, babel@) == Err::<Seq<Seq<char>>, DecodeError>(e),
        },
{
    let ghost m0 = state@;
    let mut segments = get_texts(state);
    let ghost sv = segments@.map_values(|v: Vec<Token>| lexer::tokens_view(v@));
    let n = segments.len();
    let mut k: usize = 0;
    let mut ret: Vec<String> = Vec::new();
    assert(strings_view(ret@) =~= Seq::<Seq<char>>::empty());
    while segments.len() > 0
        invariant
            k + segments@.len() == n,
            n == sv.len(),
            sv == text_operands(operations_spec(m0)),
            m0 == state@,
            forall|j: int| 0 <= j < segments@.len() ==> lexer::tokens_view(#[trigger] segments@[j]@) == sv[k + j],
            texts_of(sv.subrange(0, k as int), babel@) == Ok::<Seq<Seq<char>>, DecodeError>(strings_view(ret@)),
        decreases segments@.len(),
    {
        let ghost before_segs = segments@;
        let seg = segments.remove(0);
        assert(forall|j: int| 0 <= j < segments@.len() ==> segments@[j] == before_segs[j + 1]);
        assert(lexer::tokens_view(seg@) == sv[k as int]);
        assert(sv.subrange(0, k + 1).drop_last() =~= sv.subrange(0, k as int));
        match parse_slice(seg, babel) {
            Ok(texts) => {
                let ghost before = strings_view(ret@);
                let mut i: usize = 0;
                while i < texts.len()
                    invariant
                        i <= texts@.len(),
                        strings_view(ret@) == before + strings_view(texts@).subrange(0, i as int),
                    decreases texts@.len() - i,
                {
                    let t = texts[i].clone();
                    let ghost b2 = strings_view(ret@);
                    ret.push(t);
                    assert(strings_view(ret@) =~= b2.push(texts@[i as int]@));
                    assert(before + strings_view(texts@).subrange(0, i + 1) =~= (before + strings_view(texts@).subrange(0, i as int)).push(texts@[i as int]@));
                    i = i + 1;
                }
                assert(strings_view(texts@).subrange(0, i as int) =~= strings_view(texts@));
            },
            Err(e) => {
                proof {
                    lemma_texts_of_err(sv, babel@, (k + 1) as nat, e);
                }
                return Err(e);
            },
        }
        k = k + 1;
    }
    assert(sv.subrange(0, k as int) =~= sv);
    Ok(ret)
}

} // verus!
