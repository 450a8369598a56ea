use crate::lexer::{
    self, lex_measure, lex_wf, next_spec, LexError, LexModel, Token, TokenModel,
};
use crate::number::{Decimal};
use vstd::prelude::*;
use vstd::string::*;

verus! {

broadcast use {vstd::seq_lib::group_seq_properties, vstd::std_specs::vec::group_vec_axioms};

/// A value of the document's object model.
#[derive(Debug, PartialEq)]
pub enum Value {
    Number(Decimal),
    String(Vec<u8>),
    Key(String),
    List(Vec<Value>),
    Ref(usize, usize),
    Dict(Dict),
    Id(u128),
    Null,
    Bool(bool),
}

/// A dictionary: entries with distinct names, in the order of their first
/// appearance; a later entry of the same name replaces the value.
#[derive(Debug, PartialEq)]
pub struct Dict {
    pub entries: Vec<(String, Value)>,
}

pub type Entries = Seq<(Seq<char>, ValueModel)>;

pub enum ValueModel {
    Number(Decimal),
    String(Seq<u8>),
    Key(Seq<char>),
    List(Seq<ValueModel>),
    Ref(usize, usize),
    Dict(Entries),
    Id(u128),
    Null,
    Bool(bool),
}

pub open spec fn value_view(v: Value) -> ValueModel
    decreases v,
{
    match v {
        Value::Number(n) => ValueModel::Number(n),
        Value::String(b) => ValueModel::String(b@),
        Value::Key(k) => ValueModel::Key(k@),
        Value::List(l) => ValueModel::List(
            Seq::new(
                l@.len(),
                |i: int|
                    if 0 <= i < l.len() {
                        value_view(l[i])
                    } else {
                        ValueModel::Null
                    },
            ),
        ),
        Value::Ref(a, b) => ValueModel::Ref(a, b),
        Value::Dict(d) => ValueModel::Dict(entries_view(d)),
        Value::Id(x) => ValueModel::Id(x),
        Value::Null => ValueModel::Null,
        Value::Bool(b) => ValueModel::Bool(b),
    }
}

pub open spec fn entries_view(d: Dict) -> Entries
    decreases d,
{
    Seq::new(
        d.entries@.len(),
        |i: int|
            if 0 <= i < d.entries.len() {
                (d.entries[i].0@, value_view(d.entries[i].1))
            } else {
                (Seq::empty(), ValueModel::Null)
            },
    )
}

impl View for Value {
    type V = ValueModel;

    open spec fn view(&self) -> ValueModel {
        value_view(*self)
    }
}

impl View for Dict {
    type V = Entries;

    open spec fn view(&self) -> Entries {
        entries_view(*self)
    }
}

/// The index of the entry named `k`, or -1.
pub open spec fn key_index(es: Entries, k: Seq<char>) -> int
    decreases es.len(),
{
    if es.len() == 0 {
        -1
    } else if es.last().0 == k {
        es.len() - 1
    } else {
        key_index(es.drop_last(), k)
    }
}

pub open spec fn lookup(es: Entries, k: Seq<char>) -> Option<ValueModel> {
    if key_index(es, k) >= 0 {
        Some(es[key_index(es, k)].1)
    } else {
        None
    }
}

/// The entries with `k` set to `v`: replaced in place, or added at the end.
pub open spec fn insert(es: Entries, k: Seq<char>, v: ValueModel) -> Entries {
    if key_index(es, k) >= 0 {
        es.update(key_index(es, k), (k, v))
    } else {
        es.push((k, v))
    }
}

pub open spec fn keys_unique(es: Entries) -> bool {
    forall|i: int, j: int| 0 <= i < j < es.len() ==> es[i].0 != es[j].0
}

pub proof fn lemma_key_index(es: Entries, k: Seq<char>)
    ensures
        -1 <= key_index(es, k) < es.len(),
        key_index(es, k) >= 0 ==> es[key_index(es, k)].0 == k,
        key_index(es, k) == -1 ==> forall|i: int| 0 <= i < es.len() ==> es[i].0 != k,
    decreases es.len(),
{
    if es.len() > 0 && es.last().0 != k {
        lemma_key_index(es.drop_last(), k);
        assert(forall|i: int| 0 <= i < es.len() - 1 ==> es.drop_last()[i] == es[i]);
    }
}

pub proof fn lemma_entries_view(d: Dict)
    ensures
        d@.len() == d.entries@.len(),
        forall|i: int|
            0 <= i < d@.len() ==> #[trigger] d@[i] == (d.entries@[i].0@, d.entries@[i].1@),
{
}

pub proof fn lemma_insert_unique(es: Entries, k: Seq<char>, v: ValueModel)
    requires
        keys_unique(es),
    ensures
        keys_unique(insert(es, k, v)),
        lookup(insert(es, k, v), k) == Some(v),
{
    lemma_key_index(es, k);
    let r = insert(es, k, v);
    lemma_key_index(r, k);
    if key_index(r, k) != key_index(es, k) && key_index(es, k) >= 0 {
        assert(r[key_index(es, k)].0 == k);
    }
    if key_index(es, k) < 0 {
        assert(r[es.len() as int].0 == k);
    }
}

/// Whether the string `a` holds the same chars as `b`.
pub fn str_eq(a: &str, b: &str) -> (r: bool)
    ensures
        r == (a@ == b@),
{
    let n = a.unicode_len();
    if n != b.unicode_len() {
        return false;
    }
    let mut i: usize = 0;
    while i < n
        invariant
            n == a@.len(),
            n == b@.len(),
            i <= n,
            forall|j: int| 0 <= j < i ==> a@[j] == b@[j],
        decreases n - i,
    {
        if a.get_char(i) != b.get_char(i) {
            return false;
        }
        i = i + 1;
    }
    assert(a@ =~= b@);
    true
}

impl Dict {
    pub fn new() -> (r: Dict)
        ensures
            r@ == Seq::<(Seq<char>, ValueModel)>::empty(),
    {
        let r = Dict { entries: Vec::new() };
        assert(r@ =~= Seq::<(Seq<char>, ValueModel)>::empty());
        r
    }

    pub fn len(&self) -> (r: usize)
        ensures
            r == self@.len(),
    {
        self.entries.len()
    }

    fn index_of(&self, k: &str) -> (r: Option<usize>)
        ensures
            match r {
                Some(i) => key_index(self@, k@) == i,
                None => key_index(self@, k@) == -1,
            },
    {
        proof {
            lemma_entries_view(*self);
        }
        let mut j = self.entries.len();
        assert(self@.subrange(0, j as int) =~= self@);
        while j > 0
            invariant
                j <= self@.len(),
                key_index(self@, k@) == key_index(self@.subrange(0, j as int), k@),
            decreases j,
        {
            let ghost pre = self@.subrange(0, j as int);
            assert(pre.last() == self@[j - 1]);
            assert(pre.drop_last() =~= self@.subrange(0, j - 1));
            if str_eq(self.entries[j - 1].0.as_str(), k) {
                return Some(j - 1);
            }
            j = j - 1;
        }
        None
    }

    /// The value of the entry named `k`.
    pub fn get(&self, k: &str) -> (r: Option<&Value>)
        ensures
            match r {
                Some(v) => lookup(self@, k@) == Some(v@),
                None => lookup(self@, k@) is None,
            },
    {
        proof {
            lemma_entries_view(*self);
            lemma_key_index(self@, k@);
        }
        match self.index_of(k) {
            Some(i) => Some(&self.entries[i].1),
            None => None,
        }
    }

    /// Sets the entry named `k` to `v`.
    pub fn insert(&mut self, k: String, v: Value)
        ensures
            final(self)@ == insert(old(self)@, k@, v@),
    {
        proof {
            lemma_entries_view(*self);
            lemma_key_index(self@, k@);
        }
        let ghost e0 = self@;
        let ghost km = k@;
        let ghost vm = v@;
        match self.index_of(k.as_str()) {
            Some(i) => {
                self.entries.set(i, (k, v));
                proof {
                    lemma_entries_view(*self);
                }
                assert(self@ =~= insert(e0, km, vm));
            },
            None => {
                self.entries.push((k, v));
                proof {
                    lemma_entries_view(*self);
                }
                assert(self@ =~= insert(e0, km, vm));
            },
        }
    }
}


// ---------------------------------------------------------------------
// Parsing values

#[derive(Debug, PartialEq)]
pub enum ParseError {
    /// Lexing stopped where a token was needed.
    Lex(LexError),
    /// The input ended where a token was needed.
    UnexpectedEnd,
    /// A structural token (here the one found) stood where a value was expected.
    UnexpectedToken(Token),
    /// A dictionary entry starts with this token, not a name.
    ExpectedKey(Token),
    /// The trailer line is followed by this (or by nothing), not `<<`.
    ExpectedDictStart(Option<Token>),
    /// An object starts with this token, not an `obj` header.
    ExpectedObjectStart(Token),
    /// A stream is followed by this (or by nothing), not `endobj`.
    ExpectedObjectEnd(Option<Token>),
    /// An object's value is followed by this (or by nothing), not `stream`
    /// or `endobj`.
    ExpectedStreamStartOrObjectEnd(Option<Token>),
    /// A stream's bytes are followed by this (or by nothing), not `endstream`.
    ExpectedStreamEnd(Option<Token>),
    /// A streamed object whose dictionary has no usable `Length`.
    MissingLength,
    /// A `FlateDecode` stream that does not inflate.
    Inflate,
    /// A stream's declared `Length` runs past the end of the input.
    StreamPastEnd,
    /// No `trailer` line after the cross-reference section.
    MissingTrailer,
    /// Lists and dictionaries nest deeper than `MAX_DEPTH`.
    TooDeep,
}

/// A parse error, with the token found as a model.
pub enum ParseErrorModel {
    Lex(LexError),
    UnexpectedEnd,
    UnexpectedToken(TokenModel),
    ExpectedKey(TokenModel),
    ExpectedDictStart(Option<TokenModel>),
    ExpectedObjectStart(TokenModel),
    ExpectedObjectEnd(Option<TokenModel>),
    ExpectedStreamStartOrObjectEnd(Option<TokenModel>),
    ExpectedStreamEnd(Option<TokenModel>),
    MissingLength,
    Inflate,
    StreamPastEnd,
    MissingTrailer,
    TooDeep,
}

pub open spec fn opt_token_view(t: Option<Token>) -> Option<TokenModel> {
    match t {
        Some(x) => Some(x@),
        None => None,
    }
}

impl View for ParseError {
    type V = ParseErrorModel;

    open spec fn view(&self) -> ParseErrorModel {
        match self {
            ParseError::Lex(e) => ParseErrorModel::Lex(*e),
            ParseError::UnexpectedEnd => ParseErrorModel::UnexpectedEnd,
            ParseError::UnexpectedToken(t) => ParseErrorModel::UnexpectedToken(t@),
            ParseError::ExpectedKey(t) => ParseErrorModel::ExpectedKey(t@),
            ParseError::ExpectedDictStart(t) => ParseErrorModel::ExpectedDictStart(opt_token_view(*t)),
            ParseError::ExpectedObjectStart(t) => ParseErrorModel::ExpectedObjectStart(t@),
            ParseError::ExpectedObjectEnd(t) => ParseErrorModel::ExpectedObjectEnd(opt_token_view(*t)),
            ParseError::ExpectedStreamStartOrObjectEnd(t) => ParseErrorModel::ExpectedStreamStartOrObjectEnd(
                opt_token_view(*t),
            ),
            ParseError::ExpectedStreamEnd(t) => ParseErrorModel::ExpectedStreamEnd(opt_token_view(*t)),
            ParseError::MissingLength => ParseErrorModel::MissingLength,
            ParseError::Inflate => ParseErrorModel::Inflate,
            ParseError::StreamPastEnd => ParseErrorModel::StreamPastEnd,
            ParseError::MissingTrailer => ParseErrorModel::MissingTrailer,
            ParseError::TooDeep => ParseErrorModel::TooDeep,
        }
    }
}

/// How deep lists and dictionaries may nest.
pub const MAX_DEPTH: usize = 256;

pub open spec fn lex_rank(m: LexModel) -> nat {
    if lex_measure(m) >= 0 {
        lex_measure(m) as nat
    } else {
        0
    }
}

/// The error for a token that did not come.
pub open spec fn end_error(m: LexModel) -> ParseErrorModel {
    match m.error {
        Some(e) => ParseErrorModel::Lex(e),
        None => ParseErrorModel::UnexpectedEnd,
    }
}

/// The value whose first token `t` was just read; `m` is the lexer after it.
pub open spec fn value_from(t: TokenModel, m: LexModel, depth: nat) -> (Result<ValueModel, ParseErrorModel>, LexModel)
    decreases lex_rank(m), 1nat,
{
    match t {
        TokenModel::Bool(b) => (Ok(ValueModel::Bool(b)), m),
        TokenModel::Null => (Ok(ValueModel::Null), m),
        TokenModel::StringLiteral(b) => (Ok(ValueModel::String(b)), m),
        TokenModel::BytesLiteral(b) => (Ok(ValueModel::String(b)), m),
        TokenModel::Key(k) => (Ok(ValueModel::Key(k)), m),
        TokenModel::Ref(id) => (Ok(ValueModel::Ref(id.0, id.1)), m),
        TokenModel::Number(n) => (Ok(ValueModel::Number(n)), m),
        TokenModel::Id(x) => (Ok(ValueModel::Id(x)), m),
        TokenModel::DictStart => if depth == 0 {
            (Err(ParseErrorModel::TooDeep), m)
        } else {
            dict_body(m, Seq::empty(), (depth - 1) as nat)
        },
        TokenModel::ListStart => if depth == 0 {
            (Err(ParseErrorModel::TooDeep), m)
        } else {
            list_body(m, Seq::empty(), (depth - 1) as nat)
        },
        _ => (Err(ParseErrorModel::UnexpectedToken(t)), m),
    }
}

/// The rest of a list after its `[`, with `acc` read so far.
pub open spec fn list_body(m: LexModel, acc: Seq<ValueModel>, depth: nat) -> (Result<ValueModel, ParseErrorModel>, LexModel)
    decreases lex_rank(m), 0nat,
{
    let (t, m1) = next_spec(m);
    match t {
        None => (Err(end_error(m1)), m1),
        Some(t) => if t is ListEnd {
            (Ok(ValueModel::List(acc)), m1)
        } else if lex_rank(m1) < lex_rank(m) {
            let (v, m2) = value_from(t, m1, depth);
            match v {
                Err(e) => (Err(e), m2),
                Ok(v) => if lex_rank(m2) < lex_rank(m) {
                    list_body(m2, acc.push(v), depth)
                } else {
                    (Err(ParseErrorModel::UnexpectedEnd), m2)
                },
            }
        } else {
            (Err(ParseErrorModel::UnexpectedEnd), m1)
        },
    }
}

/// The rest of a dictionary after its `<<`, with `acc` read so far.
pub open spec fn dict_body(m: LexModel, acc: Entries, depth: nat) -> (Result<ValueModel, ParseErrorModel>, LexModel)
    decreases lex_rank(m), 0nat,
{
    let (t, m1) = next_spec(m);
    match t {
        None => (Err(end_error(m1)), m1),
        Some(t) => if t is DictEnd {
            (Ok(ValueModel::Dict(acc)), m1)
        } else if t is Key {
            if lex_rank(m1) < lex_rank(m) {
                let (v, m2) = value_spec(m1, depth);
                match v {
                    Err(e) => (Err(e), m2),
                    Ok(v) => if lex_rank(m2) < lex_rank(m) {
                        dict_body(m2, insert(acc, t->Key_0, v), depth)
                    } else {
                        (Err(ParseErrorModel::UnexpectedEnd), m2)
                    },
                }
            } else {
                (Err(ParseErrorModel::UnexpectedEnd), m1)
            }
        } else {
            (Err(ParseErrorModel::ExpectedKey(t)), m1)
        },
    }
}

/// The value that starts at the next token.
pub open spec fn value_spec(m: LexModel, depth: nat) -> (Result<ValueModel, ParseErrorModel>, LexModel)
    decreases lex_rank(m), 2nat,
{
    let (t, m1) = next_spec(m);
    match t {
        None => (Err(end_error(m1)), m1),
        Some(t) => if lex_rank(m1) < lex_rank(m) {
            value_from(t, m1, depth)
        } else {
            (Err(ParseErrorModel::UnexpectedEnd), m1)
        },
    }
}

/// The lexer after a read is well formed, on the same input, and no
/// further along by the measure.
pub open spec fn lex_follows(m: LexModel, m2: LexModel) -> bool {
    &&& lex_wf(m2)
    &&& m2.store == m.store
    &&& m2.mode == m.mode
    &&& lex_rank(m2) <= lex_rank(m)
}

proof fn lemma_next_follows(m: LexModel)
    requires
        lex_wf(m),
    ensures
        lex_follows(m, next_spec(m).1),
        next_spec(m).0 is Some ==> lex_rank(next_spec(m).1) < lex_rank(m),
{
    lexer::lemma_next_spec_wf(m);
    lexer::lemma_next_spec_measure(m);
}

proof fn lemma_value_from(t: TokenModel, m: LexModel, depth: nat)
    requires
        lex_wf(m),
    ensures
        lex_follows(m, value_from(t, m, depth).1),
    decreases lex_rank(m), 1nat,
{
    match t {
        TokenModel::DictStart => if depth > 0 {
            lemma_dict_body(m, Seq::empty(), (depth - 1) as nat);
        },
        TokenModel::ListStart => if depth > 0 {
            lemma_list_body(m, Seq::empty(), (depth - 1) as nat);
        },
        _ => {},
    }
}

proof fn lemma_list_body(m: LexModel, acc: Seq<ValueModel>, depth: nat)
    requires
        lex_wf(m),
    ensures
        lex_follows(m, list_body(m, acc, depth).1),
    decreases lex_rank(m), 0nat,
{
    lemma_next_follows(m);
    let (t, m1) = next_spec(m);
    if let Some(t) = t {
        if !(t is ListEnd) {
            lemma_value_from(t, m1, depth);
            let (v, m2) = value_from(t, m1, depth);
            if v is Ok {
                lemma_list_body(m2, acc.push(v->Ok_0), depth);
            }
        }
    }
}

proof fn lemma_dict_body(m: LexModel, acc: Entries, depth: nat)
    requires
        lex_wf(m),
    ensures
        lex_follows(m, dict_body(m, acc, depth).1),
    decreases lex_rank(m), 0nat,
{
    lemma_next_follows(m);
    let (t, m1) = next_spec(m);
    if let Some(t) = t {
        if !(t is DictEnd) && t is Key {
            lemma_value_spec(m1, depth);
            let (v, m2) = value_spec(m1, depth);
            if v is Ok {
                lemma_dict_body(m2, insert(acc, t->Key_0, v->Ok_0), depth);
            }
        }
    }
}

proof fn lemma_value_spec(m: LexModel, depth: nat)
    requires
        lex_wf(m),
    ensures
        lex_follows(m, value_spec(m, depth).1),
    decreases lex_rank(m), 2nat,
{
    lemma_next_follows(m);
    let (t, m1) = next_spec(m);
    if let Some(t) = t {
        lemma_value_from(t, m1, depth);
    }
}

pub open spec fn values_view(v: Seq<Value>) -> Seq<ValueModel> {
    v.map_values(|x: Value| x@)
}

pub proof fn lemma_list_view(l: Vec<Value>)
    ensures
        value_view(Value::List(l)) == ValueModel::List(values_view(l@)),
{
    let a = value_view(Value::List(l))->List_0;
    assert(a =~= values_view(l@));
}

/// Parses the document's objects from a lexer.
pub struct State {
    lexer: lexer::State,
}

impl View for State {
    type V = LexModel;

    closed spec fn view(&self) -> LexModel {
        self.lexer@
    }
}

impl State {
    pub open spec fn wf(&self) -> bool {
        lex_wf(self@)
    }

    /// A parser reading from the given lexer.
    pub fn new(lexer: lexer::State) -> (r: State)
        requires
            lexer.wf(),
        ensures
            r@ == lexer@,
            r.wf(),
    {
        State { lexer }
    }

    fn next_token(&mut self) -> (r: Option<Token>)
        requires
            old(self).wf(),
        ensures
            final(self).wf(),
            (match r {
                Some(t) => Some(t@),
                None => None,
            }, final(self)@) == next_spec(old(self)@),
    {
        self.lexer.get_next_token()
    }

    fn end_error(&self) -> (r: ParseError)
        ensures
            r@ == end_error(self@),
    {
        match self.lexer.error() {
            Some(e) => ParseError::Lex(e),
            None => ParseError::UnexpectedEnd,
        }
    }

    fn value_from_exec(&mut self, t: Token, depth: usize) -> (r: Result<Value, ParseError>)
        requires
            old(self).wf(),
        ensures
            final(self).wf(),
            (match r {
                Ok(v) => Ok(v@),
                Err(e) => Err(e@),
            }, final(self)@) == value_from(t@, old(self)@, depth as nat),
        decreases lex_rank(old(self)@), 1nat,
    {
        match t {
            Token::Bool(b) => Ok(Value::Bool(b)),
            Token::Null => Ok(Value::Null),
            Token::StringLiteral(b) => Ok(Value::String(b)),
            Token::BytesLiteral(b) => Ok(Value::String(b)),
            Token::Key(k) => Ok(Value::Key(k)),
            Token::Ref(id) => Ok(Value::Ref(id.0, id.1)),
            Token::Number(n) => Ok(Value::Number(n)),
            Token::Id(x) => Ok(Value::Id(x)),
            Token::DictStart => {
                if depth == 0 {
                    return Err(ParseError::TooDeep);
                }
                match self.dict_body_exec(depth - 1) {
                    Ok(d) => Ok(Value::Dict(d)),
                    Err(e) => Err(e),
                }
            },
            Token::ListStart => {
                if depth == 0 {
                    return Err(ParseError::TooDeep);
                }
                self.list_body_exec(depth - 1)
            },
            other => Err(ParseError::UnexpectedToken(other)),
        }
    }

    fn list_body_exec(&mut self, depth: usize) -> (r: Result<Value, ParseError>)
        requires
            old(self).wf(),
        ensures
            final(self).wf(),
            (match r {
                Ok(v) => Ok(v@),
                Err(e) => Err(e@),
            }, final(self)@) == list_body(old(self)@, Seq::empty(), depth as nat),
        decreases lex_rank(old(self)@), 0nat,
    {
        let mut acc: Vec<Value> = Vec::new();
        let ghost m0 = self@;
        assert(values_view(acc@) =~= Seq::<ValueModel>::empty());
        loop
            invariant
                self.wf(),
                m0 == old(self)@,
                lex_rank(self@) <= lex_rank(m0),
                list_body(self@, values_view(acc@), depth as nat) == list_body(m0, Seq::empty(), depth as nat),
            decreases lex_rank(self@),
        {
            let ghost m = self@;
            proof {
                lemma_next_follows(m);
            }
            let t = match self.next_token() {
                Some(t) => t,
                None => {
                    assert(next_spec(m).0 is None);
                    return Err(self.end_error());
                },
            };
            if let Token::ListEnd = t {
                proof {
                    lemma_list_view(acc);
                }
                return Ok(Value::List(acc));
            }
            proof {
                lemma_value_from(t@, self@, depth as nat);
            }
            match self.value_from_exec(t, depth) {
                Ok(v) => {
                    let ghost before = acc@;
                    acc.push(v);
                    assert(values_view(acc@) =~= values_view(before).push(v@));
                },
                Err(e) => {
                    return Err(e);
                },
            }
        }
    }

    fn dict_body_exec(&mut self, depth: usize) -> (r: Result<Dict, ParseError>)
        requires
            old(self).wf(),
        ensures
            final(self).wf(),
            (match r {
                Ok(d) => Ok(ValueModel::Dict(d@)),
                Err(e) => Err(e@),
            }, final(self)@) == dict_body(old(self)@, Seq::empty(), depth as nat),
        decreases lex_rank(old(self)@), 0nat,
    {
        let mut acc = Dict::new();
        let ghost m0 = self@;
        loop
            invariant
                self.wf(),
                m0 == old(self)@,
                lex_rank(self@) <= lex_rank(m0),
                dict_body(self@, acc@, depth as nat) == dict_body(m0, Seq::empty(), depth as nat),
            decreases lex_rank(self@),
        {
            let ghost m = self@;
            proof {
                lemma_next_follows(m);
            }
            let t = match self.next_token() {
                Some(t) => t,
                None => {
                    return Err(self.end_error());
                },
            };
            match t {
                Token::DictEnd => {
                    return Ok(acc);
                },
                Token::Key(k) => {
                    proof {
                        lemma_value_spec(self@, depth as nat);
                    }
                    match self.value_exec(depth) {
                        Ok(v) => {
                            acc.insert(k, v);
                        },
                        Err(e) => {
                            return Err(e);
                        },
                    }
                },
                other => {
                    return Err(ParseError::ExpectedKey(other));
                },
            }
        }
    }

    fn value_exec(&mut self, depth: usize) -> (r: Result<Value, ParseError>)
        requires
            old(self).wf(),
        ensures
            final(self).wf(),
            (match r {
                Ok(v) => Ok(v@),
                Err(e) => Err(e@),
            }, final(self)@) == value_spec(old(self)@, depth as nat),
        decreases lex_rank(old(self)@), 2nat,
    {
        proof {
            lemma_next_follows(self@);
        }
        match self.next_token() {
            Some(t) => {
                proof {
                    lemma_value_from(t@, self@, depth as nat);
                }
                self.value_from_exec(t, depth)
            },
            None => Err(self.end_error()),
        }
    }

    /// Parses the value that starts at the next token; lists and
    /// dictionaries nest at most `MAX_DEPTH` deep.
    pub fn parse_value(&mut self) -> (r: Result<Value, ParseError>)
        requires
            old(self).wf(),
        ensures
            final(self).wf(),
            (match r {
                Ok(v) => Ok(v@),
                Err(e) => Err(e@),
            }, final(self)@) == value_spec(old(self)@, MAX_DEPTH as nat),
    {
        self.value_exec(MAX_DEPTH)
    }
}


// ---------------------------------------------------------------------
// Objects and documents

/// An indirect object: its id, its value, and the bytes of its stream
/// (empty where it has none).
#[derive(Debug)]
pub struct Object {
    id: (usize, usize),
    value: Value,
    stream: Vec<u8>,
}

pub struct ObjectModel {
    pub id: (usize, usize),
    pub value: ValueModel,
    pub stream: Seq<u8>,
}

impl View for Object {
    type V = ObjectModel;

    closed spec fn view(&self) -> ObjectModel {
        ObjectModel { id: self.id, value: self.value@, stream: self.stream@ }
    }
}

/// The entries of a dictionary value; none for any other value.
pub open spec fn entries_of(v: ValueModel) -> Entries {
    match v {
        ValueModel::Dict(es) => es,
        _ => Seq::empty(),
    }
}

/// The entry named `k` of an object's dictionary.
pub open spec fn obj_lookup(o: ObjectModel, k: Seq<char>) -> Option<ValueModel> {
    lookup(entries_of(o.value), k)
}

impl Object {
    /// The object's dictionary; `None` where its value is not a dictionary.
    pub fn dict(&self) -> (r: Option<&Dict>)
        ensures
            match r {
                Some(d) => self@.value == ValueModel::Dict(d@),
                None => !(self@.value is Dict),
            },
    {
        match &self.value {
            Value::Dict(d) => Some(d),
            _ => None,
        }
    }

    /// The object's dictionary, or an empty one where its value is not a
    /// dictionary; a fresh copy on each call.
    pub fn dict_or_empty(&self) -> (r: Dict)
        ensures
            r@ == entries_of(self@.value),
    {
        match &self.value {
            Value::Dict(d) => copy_dict(d),
            _ => Dict::new(),
        }
    }

    /// The entry named `k` of the object's dictionary; `None` also where
    /// its value is not a dictionary.
    pub fn dict_get(&self, k: &str) -> (r: Option<&Value>)
        ensures
            match r {
                Some(v) => obj_lookup(self@, k@) == Some(v@),
                None => obj_lookup(self@, k@) is None,
            },
    {
        match &self.value {
            Value::Dict(d) => d.get(k),
            _ => None,
        }
    }

    pub fn id(&self) -> (r: (usize, usize))
        ensures
            r == self@.id,
    {
        self.id
    }

    pub fn value(&self) -> (r: &Value)
        ensures
            r@ == self@.value,
    {
        &self.value
    }

    pub fn stream(&self) -> (r: &[u8])
        ensures
            r@ == self@.stream,
    {
        self.stream.as_slice()
    }
}

pub struct PdfModel {
    pub objects: Seq<ObjectModel>,
    pub meta: Entries,
}

/// A parsed document: its objects, and its trailer dictionary.
pub struct PDF {
    objects: Vec<Object>,
    meta: Dict,
}

pub open spec fn objects_view(v: Seq<Object>) -> Seq<ObjectModel> {
    v.map_values(|o: Object| o@)
}

impl View for PDF {
    type V = PdfModel;

    closed spec fn view(&self) -> PdfModel {
        PdfModel { objects: objects_view(self.objects@), meta: self.meta@ }
    }
}

/// The index of the object with id `id`, or -1.
pub open spec fn object_index(objs: Seq<ObjectModel>, id: (usize, usize)) -> int
    decreases objs.len(),
{
    if objs.len() == 0 {
        -1
    } else if objs.last().id == id {
        objs.len() - 1
    } else {
        object_index(objs.drop_last(), id)
    }
}

pub open spec fn resolve(objs: Seq<ObjectModel>, id: (usize, usize)) -> Option<ObjectModel> {
    if object_index(objs, id) >= 0 {
        Some(objs[object_index(objs, id)])
    } else {
        None
    }
}

/// The objects with `o` added; it replaces an object of the same id.
pub open spec fn put_object(objs: Seq<ObjectModel>, o: ObjectModel) -> Seq<ObjectModel> {
    if object_index(objs, o.id) >= 0 {
        objs.update(object_index(objs, o.id), o)
    } else {
        objs.push(o)
    }
}

pub proof fn lemma_object_index(objs: Seq<ObjectModel>, id: (usize, usize))
    ensures
        -1 <= object_index(objs, id) < objs.len(),
        object_index(objs, id) >= 0 ==> objs[object_index(objs, id)].id == id,
        object_index(objs, id) == -1 ==> forall|i: int| 0 <= i < objs.len() ==> objs[i].id != id,
    decreases objs.len(),
{
    if objs.len() > 0 && objs.last().id != id {
        lemma_object_index(objs.drop_last(), id);
        assert(forall|i: int| 0 <= i < objs.len() - 1 ==> objs.drop_last()[i] == objs[i]);
    }
}

/// The length that a streamed object's dictionary declares.
pub open spec fn stream_length(es: Entries) -> Option<usize> {
    match lookup(es, "Length"@) {
        Some(ValueModel::Number(n)) => if n.scale == 0 && 0 <= n.mantissa <= usize::MAX {
            Some(n.mantissa as usize)
        } else {
            None
        },
        _ => None,
    }
}

pub open spec fn is_flate(es: Entries) -> bool {
    lookup(es, "Filter"@) == Some(ValueModel::Key("FlateDecode"@))
}

/// The stream bytes of `size` raw bytes at the lexer's offset (inflated,
/// or copied), and the lexer after them; an error where fewer bytes are
/// left or they do not inflate.
pub open spec fn stream_data(m: LexModel, size: nat, flate: bool) -> (Result<Seq<u8>, ParseErrorModel>, LexModel) {
    if !lexer::raw_fits(m, size) {
        (Err(ParseErrorModel::StreamPastEnd), m)
    } else if flate {
        match lexer::zlib_inflate(lexer::raw_span(m, size)) {
            Some(d) => (Ok(d), lexer::raw_advance(m, size)),
            None => (Err(ParseErrorModel::Inflate), m),
        }
    } else {
        (Ok(lexer::raw_span(m, size)), lexer::raw_advance(m, size))
    }
}

/// The end of an object after its value `v`: `endobj`, or a stream and
/// `endstream` `endobj`.
pub open spec fn object_rest(id: (usize, usize), v: ValueModel, m: LexModel) -> (Result<ObjectModel, ParseErrorModel>, LexModel) {
    let (t, m1) = next_spec(m);
    if t == Some(TokenModel::ObjectEnd) {
        (Ok(ObjectModel { id, value: v, stream: Seq::empty() }), m1)
    } else if t == Some(TokenModel::StreamStart) {
        match stream_length(entries_of(v)) {
            None => (Err(ParseErrorModel::MissingLength), m1),
            Some(size) => {
                let (data, m2) = stream_data(m1, size as nat, is_flate(entries_of(v)));
                match data {
                    Err(e) => (Err(e), m2),
                    Ok(d) => {
                        let (t3, m3) = next_spec(m2);
                        if t3 == Some(TokenModel::StreamEnd) {
                            let (t4, m4) = next_spec(m3);
                            if t4 == Some(TokenModel::ObjectEnd) {
                                (Ok(ObjectModel { id, value: v, stream: d }), m4)
                            } else {
                                (Err(ParseErrorModel::ExpectedObjectEnd(t4)), m4)
                            }
                        } else {
                            (Err(ParseErrorModel::ExpectedStreamEnd(t3)), m3)
                        }
                    },
                }
            },
        }
    } else {
        (Err(ParseErrorModel::ExpectedStreamStartOrObjectEnd(t)), m1)
    }
}

/// After the `trailer` line, the trailer dictionary.
pub open spec fn trailer_dict(m: LexModel) -> Result<Entries, ParseErrorModel> {
    let (t, m1) = next_spec(m);
    if t == Some(TokenModel::DictStart) {
        match dict_body(m1, Seq::empty(), MAX_DEPTH as nat).0 {
            Ok(ValueModel::Dict(es)) => Ok(es),
            Ok(_) => Err(ParseErrorModel::ExpectedDictStart(None)),
            Err(e) => Err(e),
        }
    } else {
        Err(ParseErrorModel::ExpectedDictStart(t))
    }
}

/// The raw lines of the cross-reference section, up to the `trailer` line.
pub open spec fn trailer_search(m: LexModel, objs: Seq<ObjectModel>) -> Result<PdfModel, ParseErrorModel>
    decreases m.store.len() - m.pos,
{
    let (line, m1) = lexer::ascii_line(m);
    match line {
        None => Err(ParseErrorModel::MissingTrailer),
        Some(l) => if l == "trailer"@ {
            match trailer_dict(m1) {
                Ok(es) => Ok(PdfModel { objects: objs, meta: es }),
                Err(e) => Err(e),
            }
        } else if m.pos < m1.pos <= m.store.len() && m1.store == m.store {
            trailer_search(m1, objs)
        } else {
            Err(ParseErrorModel::MissingTrailer)
        },
    }
}

/// Objects up to the cross-reference section, then the trailer.
pub open spec fn doc_loop(m: LexModel, objs: Seq<ObjectModel>) -> Result<PdfModel, ParseErrorModel>
    decreases lex_rank(m),
{
    let (t, m1) = next_spec(m);
    match t {
        None => Err(end_error(m1)),
        Some(t) => if t is XRef {
            trailer_search(m1, objs)
        } else if t is ObjectStart {
            let (v, m2) = value_spec(m1, MAX_DEPTH as nat);
            match v {
                Err(e) => Err(e),
                Ok(v) => {
                    let (o, m3) = object_rest(t->ObjectStart_0, v, m2);
                    match o {
                        Err(e) => Err(e),
                        Ok(o) => if lex_rank(m3) < lex_rank(m) {
                            doc_loop(m3, put_object(objs, o))
                        } else {
                            Err(ParseErrorModel::UnexpectedEnd)
                        },
                    }
                },
            }
        } else {
            Err(ParseErrorModel::ExpectedObjectStart(t))
        },
    }
}

pub open spec fn start_model(s: Seq<u8>) -> LexModel {
    LexModel {
        store: s,
        pos: 0,
        mode: lexer::LexMode::Document,
        pending: Seq::empty(),
        ready: Seq::empty(),
        error: None,
    }
}

/// What a whole document parses to.
pub open spec fn parse_spec(s: Seq<u8>) -> Result<PdfModel, ParseErrorModel> {
    doc_loop(start_model(s), Seq::empty())
}

proof fn lemma_object_rest(id: (usize, usize), v: ValueModel, m: LexModel)
    requires
        lex_wf(m),
    ensures
        lex_follows(m, object_rest(id, v, m).1),
{
    lemma_next_follows(m);
    let (t, m1) = next_spec(m);
    if t == Some(TokenModel::StreamStart) {
        if let Some(size) = stream_length(entries_of(v)) {
            let (data, m2) = stream_data(m1, size as nat, is_flate(entries_of(v)));
            lemma_next_follows(m2);
            let (t3, m3) = next_spec(m2);
            lemma_next_follows(m3);
        }
    }
}

proof fn lemma_ascii_line(m: LexModel)
    requires
        lex_wf(m),
    ensures
        lex_wf(lexer::ascii_line(m).1),
        lexer::ascii_line(m).1.store == m.store,
        lexer::ascii_line(m).1.mode == m.mode,
        lexer::ascii_line(m).0 is Some ==> m.pos < lexer::ascii_line(m).1.pos,
{
    lexer::lemma_run_end_bounds(m.store, m.pos, lexer::RunKind::AsciiLine);
}

impl State {
    #[verifier::rlimit(40)]
    fn object_rest_exec(&mut self, id: (usize, usize), v: Value) -> (r: Result<Object, ParseError>)
        requires
            old(self).wf(),
        ensures
            final(self).wf(),
            (match r {
                Ok(o) => Ok(o@),
                Err(e) => Err(e@),
            }, final(self)@) == object_rest(id, v@, old(self)@),
    {
        proof {
            lemma_next_follows(self@);
        }
        let t = self.next_token();
        match t {
            Some(Token::ObjectEnd) => {
                return Ok(Object { id, value: v, stream: Vec::new() });
            },
            Some(Token::StreamStart) => {},
            _ => {
                return Err(ParseError::ExpectedStreamStartOrObjectEnd(t));
            },
        }
        let (size, flate) = match &v {
            Value::Dict(d) => {
                let size = match d.get("Length") {
                    Some(Value::Number(n)) => {
                        if n.scale == 0 && 0 <= n.mantissa && n.mantissa <= usize::MAX as i128 {
                            Some(n.mantissa as usize)
                        } else {
                            None
                        }
                    },
                    _ => None,
                };
                let flate = match d.get("Filter") {
                    Some(Value::Key(k)) => str_eq(k.as_str(), "FlateDecode"),
                    _ => false,
                };
                (size, flate)
            },
            _ => (None, false),
        };
        let size = match size {
            Some(n) => n,
            None => {
                return Err(ParseError::MissingLength);
            },
        };
        if self.lexer.len() - self.lexer.index() < size {
            return Err(ParseError::StreamPastEnd);
        }
        let mut stream: Vec<u8> = Vec::new();
        if flate {
            if self.lexer.get_flate_stream(size, &mut stream).is_none() {
                return Err(ParseError::Inflate);
            }
        } else {
            self.lexer.get_fixed_length_stream(size, &mut stream);
        }
        proof {
            lemma_next_follows(self@);
        }
        let t3 = self.next_token();
        match t3 {
            Some(Token::StreamEnd) => {},
            _ => {
                return Err(ParseError::ExpectedStreamEnd(t3));
            },
        }
        proof {
            lemma_next_follows(self@);
        }
        let t4 = self.next_token();
        match t4 {
            Some(Token::ObjectEnd) => {},
            _ => {
                return Err(ParseError::ExpectedObjectEnd(t4));
            },
        }
        Ok(Object { id, value: v, stream })
    }

    fn parse_dict(&mut self) -> (r: Result<Dict, ParseError>)
        requires
            old(self).wf(),
        ensures
            match r {
                Ok(d) => trailer_dict(old(self)@) == Ok::<Entries, ParseErrorModel>(d@),
                Err(e) => trailer_dict(old(self)@) == Err::<Entries, ParseErrorModel>(e@),
            },
    {
        proof {
            lemma_next_follows(self@);
        }
        let t = self.next_token();
        match t {
            Some(Token::DictStart) => {},
            _ => {
                return Err(ParseError::ExpectedDictStart(t));
            },
        }
        self.dict_body_exec(MAX_DEPTH)
    }
}

fn put_object_exec(objs: &mut Vec<Object>, o: Object)
    ensures
        objects_view(final(objs)@) == put_object(objects_view(old(objs)@), o@),
{
    let ghost v0 = objects_view(objs@);
    let ghost om = o@;
    let id = o.id;
    proof {
        lemma_object_index(v0, om.id);
    }
    let mut j = objs.len();
    assert(v0.subrange(0, j as int) =~= v0);
    while j > 0
        invariant
            j <= objs@.len(),
            v0 == objects_view(objs@),
            v0 == objects_view(old(objs)@),
            om == o@,
            id == om.id,
            object_index(v0, om.id) == object_index(v0.subrange(0, j as int), om.id),
        decreases j,
    {
        let ghost pre = v0.subrange(0, j as int);
        assert(pre.drop_last() =~= v0.subrange(0, j - 1));
        let oid = objs[j - 1].id;
        assert(v0[j - 1].id == oid);
        if oid.0 == id.0 && oid.1 == id.1 {
            objs.set(j - 1, o);
            assert(objects_view(objs@) =~= put_object(v0, om));
            return;
        }
        j = j - 1;
    }
    objs.push(o);
    assert(objects_view(objs@) =~= put_object(v0, om));
}

/// Parses a whole document: its objects up to the cross-reference
/// section, then the trailer dictionary.
pub fn parse(source: &[u8]) -> (r: Result<PDF, ParseError>)
    ensures
        match r {
            Ok(p) => parse_spec(source@) == Ok::<PdfModel, ParseErrorModel>(p@),
            Err(e) => parse_spec(source@) == Err::<PdfModel, ParseErrorModel>(e@),
        },
{
    let mut state = State::new(lexer::parse(source));
    let mut objects: Vec<Object> = Vec::new();
    let ghost m0 = state@;
    assert(objects_view(objects@) =~= Seq::<ObjectModel>::empty());
    loop
        invariant
            state.wf(),
            m0 == start_model(source@),
            doc_loop(state@, objects_view(objects@)) == doc_loop(m0, Seq::empty()),
        decreases lex_rank(state@),
    {
        let ghost m = state@;
        proof {
            lemma_next_follows(m);
        }
        let t = match state.next_token() {
            Some(t) => t,
            None => {
                return Err(state.end_error());
            },
        };
        match t {
            Token::XRef => {
                return state.trailer_search_exec(objects);
            },
            Token::ObjectStart(id) => {
                proof {
                    lemma_value_spec(state@, MAX_DEPTH as nat);
                }
                let v = match state.parse_value() {
                    Ok(v) => v,
                    Err(e) => {
                        return Err(e);
                    },
                };
                proof {
                    lemma_object_rest(id, v@, state@);
                }
                let o = match state.object_rest_exec(id, v) {
                    Ok(o) => o,
                    Err(e) => {
                        return Err(e);
                    },
                };
                put_object_exec(&mut objects, o);
            },
            other => {
                return Err(ParseError::ExpectedObjectStart(other));
            },
        }
    }
}

impl State {
    fn trailer_search_exec(&mut self, objects: Vec<Object>) -> (r: Result<PDF, ParseError>)
        requires
            old(self).wf(),
        ensures
            match r {
                Ok(p) => trailer_search(old(self)@, objects_view(objects@)) == Ok::<PdfModel, ParseErrorModel>(p@),
                Err(e) => trailer_search(old(self)@, objects_view(objects@)) == Err::<PdfModel, ParseErrorModel>(e@),
            },
    {
        let ghost m0 = self@;
        loop
            invariant
                self.wf(),
                trailer_search(self@, objects_view(objects@)) == trailer_search(m0, objects_view(objects@)),
                m0 == old(self)@,
            decreases self@.store.len() - self@.pos,
        {
            proof {
                lemma_ascii_line(self@);
            }
            let line = match self.lexer.get_ascii_line() {
                Some(l) => l,
                None => {
                    return Err(ParseError::MissingTrailer);
                },
            };
            if str_eq(line.as_str(), "trailer") {
                return match self.parse_dict() {
                    Ok(meta) => Ok(PDF { objects, meta }),
                    Err(e) => Err(e),
                };
            }
        }
    }
}


// ---------------------------------------------------------------------
// Walking the document

/// The objects that the references `l` name, in order; `None` where one
/// is not a reference or names no object.
pub open spec fn resolve_all(objs: Seq<ObjectModel>, l: Seq<ValueModel>) -> Option<Seq<ObjectModel>>
    decreases l.len(),
{
    if l.len() == 0 {
        Some(Seq::empty())
    } else {
        match resolve_all(objs, l.drop_last()) {
            Some(s) => match l.last() {
                ValueModel::Ref(a, b) => match resolve(objs, (a, b)) {
                    Some(o) => Some(s.push(o)),
                    None => None,
                },
                _ => None,
            },
            None => None,
        }
    }
}

/// The object that the entry `k` of `o`'s dictionary refers to.
pub open spec fn follow(objs: Seq<ObjectModel>, o: ObjectModel, k: Seq<char>) -> Option<ObjectModel> {
    match obj_lookup(o, k) {
        Some(ValueModel::Ref(a, b)) => resolve(objs, (a, b)),
        _ => None,
    }
}

/// The page tree's root: the trailer's `Root`, then its `Pages`.
pub open spec fn pages_spec(p: PdfModel) -> Option<ObjectModel> {
    match lookup(p.meta, "Root"@) {
        Some(ValueModel::Ref(a, b)) => match resolve(p.objects, (a, b)) {
            Some(root) => follow(p.objects, root, "Pages"@),
            None => None,
        },
        _ => None,
    }
}

/// The objects of the `Kids` list of `o`.
pub open spec fn kids_of(objs: Seq<ObjectModel>, o: ObjectModel) -> Option<Seq<ObjectModel>> {
    match obj_lookup(o, "Kids"@) {
        Some(ValueModel::List(l)) => resolve_all(objs, l),
        _ => None,
    }
}

pub open spec fn pages_kids_spec(p: PdfModel) -> Option<Seq<ObjectModel>> {
    match pages_spec(p) {
        Some(pg) => kids_of(p.objects, pg),
        None => None,
    }
}

/// The `Kids` lists of the objects `ks`, one after the other; `None`
/// where one has none.
pub open spec fn kids_lists(ks: Seq<ObjectModel>) -> Option<Seq<ValueModel>>
    decreases ks.len(),
{
    if ks.len() == 0 {
        Some(Seq::empty())
    } else {
        match kids_lists(ks.drop_last()) {
            Some(l) => match obj_lookup(ks.last(), "Kids"@) {
                Some(ValueModel::List(k)) => Some(l + k),
                _ => None,
            },
            None => None,
        }
    }
}

pub open spec fn pages_grand_kids_spec(p: PdfModel) -> Option<Seq<ObjectModel>> {
    match pages_kids_spec(p) {
        Some(ks) => match kids_lists(ks) {
            Some(l) => resolve_all(p.objects, l),
            None => None,
        },
        None => None,
    }
}

/// The streams of the objects that the `Contents` entries of `ks` refer
/// to; entries that are missing, or name no object, are passed over.
pub open spec fn contents_of(objs: Seq<ObjectModel>, ks: Seq<ObjectModel>) -> Seq<Seq<u8>>
    decreases ks.len(),
{
    if ks.len() == 0 {
        Seq::empty()
    } else {
        let rest = contents_of(objs, ks.drop_last());
        match follow(objs, ks.last(), "Contents"@) {
            Some(c) => rest.push(c.stream),
            None => rest,
        }
    }
}

pub open spec fn contents_spec(p: PdfModel) -> Seq<Seq<u8>> {
    match pages_kids_spec(p) {
        Some(ks) => contents_of(p.objects, ks),
        None => Seq::empty(),
    }
}

/// The ids in the `Contents` entries of `ks` that are references.
pub open spec fn contents_ids_of(ks: Seq<ObjectModel>) -> Seq<(usize, usize)>
    decreases ks.len(),
{
    if ks.len() == 0 {
        Seq::empty()
    } else {
        let rest = contents_ids_of(ks.drop_last());
        match obj_lookup(ks.last(), "Contents"@) {
            Some(ValueModel::Ref(a, b)) => rest.push((a, b)),
            _ => rest,
        }
    }
}

pub open spec fn contents_ids_spec(p: PdfModel) -> Seq<(usize, usize)> {
    match pages_kids_spec(p) {
        Some(ks) => contents_ids_of(ks),
        None => Seq::empty(),
    }
}

/// The entries of `fs` that refer to an object, with that object.
pub open spec fn named_objects(objs: Seq<ObjectModel>, fs: Entries) -> Seq<(Seq<char>, ObjectModel)>
    decreases fs.len(),
{
    if fs.len() == 0 {
        Seq::empty()
    } else {
        let rest = named_objects(objs, fs.drop_last());
        match fs.last().1 {
            ValueModel::Ref(a, b) => match resolve(objs, (a, b)) {
                Some(o) => rest.push((fs.last().0, o)),
                None => rest,
            },
            _ => rest,
        }
    }
}

/// The fonts of the page tree's root: its `Resources` dictionary's `Font`
/// dictionary, by name.
pub open spec fn fonts_spec(p: PdfModel) -> Seq<(Seq<char>, ObjectModel)> {
    match pages_spec(p) {
        Some(pg) => match obj_lookup(pg, "Resources"@) {
            Some(ValueModel::Dict(res)) => match lookup(res, "Font"@) {
                Some(ValueModel::Dict(fs)) => named_objects(p.objects, fs),
                _ => Seq::empty(),
            },
            _ => Seq::empty(),
        },
        None => Seq::empty(),
    }
}

/// The objects that the references among `l` name; others are passed over.
pub open spec fn resolve_some(objs: Seq<ObjectModel>, l: Seq<ValueModel>) -> Seq<ObjectModel>
    decreases l.len(),
{
    if l.len() == 0 {
        Seq::empty()
    } else {
        let rest = resolve_some(objs, l.drop_last());
        match l.last() {
            ValueModel::Ref(a, b) => match resolve(objs, (a, b)) {
                Some(o) => rest.push(o),
                None => rest,
            },
            _ => rest,
        }
    }
}

pub open spec fn descendants_of(objs: Seq<ObjectModel>, fonts: Seq<(Seq<char>, ObjectModel)>) -> Seq<ObjectModel>
    decreases fonts.len(),
{
    if fonts.len() == 0 {
        Seq::empty()
    } else {
        let rest = descendants_of(objs, fonts.drop_last());
        match obj_lookup(fonts.last().1, "DescendantFonts"@) {
            Some(ValueModel::List(l)) => rest + resolve_some(objs, l),
            _ => rest,
        }
    }
}

pub open spec fn descendant_fonts_spec(p: PdfModel) -> Seq<ObjectModel> {
    descendants_of(p.objects, fonts_spec(p))
}

pub open spec fn descriptors_of(objs: Seq<ObjectModel>, fs: Seq<ObjectModel>) -> Seq<ObjectModel>
    decreases fs.len(),
{
    if fs.len() == 0 {
        Seq::empty()
    } else {
        let rest = descriptors_of(objs, fs.drop_last());
        match follow(objs, fs.last(), "FontDescriptor"@) {
            Some(o) => rest.push(o),
            None => rest,
        }
    }
}

pub open spec fn font_descriptors_spec(p: PdfModel) -> Seq<ObjectModel> {
    descriptors_of(p.objects, descendant_fonts_spec(p))
}

pub open spec fn is_cmap(o: ObjectModel) -> bool {
    obj_lookup(o, "Type"@) == Some(ValueModel::Key("CMap"@))
}

/// The streams of the objects whose `Type` is `CMap`, in object order.
pub open spec fn cmaps_of(objs: Seq<ObjectModel>) -> Seq<Seq<u8>>
    decreases objs.len(),
{
    if objs.len() == 0 {
        Seq::empty()
    } else if is_cmap(objs.last()) {
        cmaps_of(objs.drop_last()).push(objs.last().stream)
    } else {
        cmaps_of(objs.drop_last())
    }
}

pub open spec fn all_ascii(b: Seq<u8>) -> bool {
    forall|i: int| 0 <= i < b.len() ==> b[i] < 128
}

/// The CMap streams that are ASCII text, as text.
pub open spec fn cmap_lines_of(objs: Seq<ObjectModel>) -> Seq<Seq<char>>
    decreases objs.len(),
{
    if objs.len() == 0 {
        Seq::empty()
    } else if is_cmap(objs.last()) && all_ascii(objs.last().stream) {
        cmap_lines_of(objs.drop_last()).push(lexer::chars_of(objs.last().stream))
    } else {
        cmap_lines_of(objs.drop_last())
    }
}

pub open spec fn refs_view(v: Seq<&Object>) -> Seq<ObjectModel> {
    v.map_values(|o: &Object| o@)
}

impl PDF {
    pub fn get_objects(&self) -> (r: &Vec<Object>)
        ensures
            objects_view(r@) == self@.objects,
    {
        &self.objects
    }

    pub fn get_meta(&self) -> (r: &Dict)
        ensures
            r@ == self@.meta,
    {
        &self.meta
    }

    /// The object with id `id`.
    pub fn get(&self, id: &(usize, usize)) -> (r: Option<&Object>)
        ensures
            match r {
                Some(o) => resolve(self@.objects, *id) == Some(o@),
                None => resolve(self@.objects, *id) is None,
            },
    {
        let ghost v0 = self@.objects;
        proof {
            lemma_object_index(v0, *id);
        }
        let mut j = self.objects.len();
        assert(v0.subrange(0, j as int) =~= v0);
        while j > 0
            invariant
                j <= self.objects@.len(),
                v0 == objects_view(self.objects@),
                object_index(v0, *id) == object_index(v0.subrange(0, j as int), *id),
            decreases j,
        {
            let ghost pre = v0.subrange(0, j as int);
            assert(pre.drop_last() =~= v0.subrange(0, j - 1));
            let oid = self.objects[j - 1].id;
            assert(v0[j - 1].id == oid);
            if oid.0 == id.0 && oid.1 == id.1 {
                return Some(&self.objects[j - 1]);
            }
            j = j - 1;
        }
        None
    }

    fn follow(&self, o: &Object, k: &str) -> (r: Option<&Object>)
        ensures
            match r {
                Some(x) => follow(self@.objects, o@, k@) == Some(x@),
                None => follow(self@.objects, o@, k@) is None,
            },
    {
        match o.dict_get(k) {
            Some(Value::Ref(a, b)) => self.get(&(*a, *b)),
            _ => None,
        }
    }

    /// The page tree's root object.
    pub fn get_pages(&self) -> (r: Option<&Object>)
        ensures
            match r {
                Some(x) => pages_spec(self@) == Some(x@),
                None => pages_spec(self@) is None,
            },
    {
        let root = match self.meta.get("Root") {
            Some(Value::Ref(a, b)) => self.get(&(*a, *b)),
            _ => None,
        };
        match root {
            Some(root) => self.follow(root, "Pages"),
            None => None,
        }
    }

    fn resolve_all(&self, l: &Vec<&Value>) -> (r: Option<Vec<&Object>>)
        ensures
            match r {
                Some(v) => resolve_all(self@.objects, value_refs_view(l@)) == Some(refs_view(v@)),
                None => resolve_all(self@.objects, value_refs_view(l@)) is None,
            },
    {
        let mut out: Vec<&Object> = Vec::new();
        let mut i: usize = 0;
        let ghost lv = value_refs_view(l@);
        while i < l.len()
            invariant
                i <= l@.len(),
                lv == value_refs_view(l@),
                resolve_all(self@.objects, lv.subrange(0, i as int)) == Some(refs_view(out@)),
            decreases l@.len() - i,
        {
            let ghost pre = lv.subrange(0, i + 1);
            assert(pre.drop_last() =~= lv.subrange(0, i as int));
            match l[i] {
                Value::Ref(a, b) => match self.get(&(*a, *b)) {
                    Some(o) => {
                        let ghost before = out@;
                        out.push(o);
                        assert(refs_view(out@) =~= refs_view(before).push(o@));
                    },
                    None => {
                        assert(resolve_all(self@.objects, lv.subrange(0, i as int)).is_some());
                        assert(resolve_all(self@.objects, pre) is None);
                        proof {
                            lemma_resolve_all_none(self@.objects, lv, (i + 1) as nat);
                        }
                        return None;
                    },
                },
                _ => {
                    proof {
                        lemma_resolve_all_none(self@.objects, lv, (i + 1) as nat);
                    }
                    return None;
                },
            }
            i = i + 1;
        }
        assert(lv.subrange(0, i as int) =~= lv);
        Some(out)
    }

    /// The objects of the `Kids` list of the page tree's root.
    pub fn get_pages_kids(&self) -> (r: Option<Vec<&Object>>)
        ensures
            match r {
                Some(v) => pages_kids_spec(self@) == Some(refs_view(v@)),
                None => pages_kids_spec(self@) is None,
            },
    {
        match self.get_pages() {
            Some(pg) => match pg.dict_get("Kids") {
                Some(Value::List(l)) => {
                    proof {
                        lemma_list_view(*l);
                    }
                    let refs = borrow_all(l);
                    self.resolve_all(&refs)
                },
                _ => None,
            },
            None => None,
        }
    }
}

/// Once the prefix of `l` fails to resolve, every longer prefix does.
proof fn lemma_resolve_all_none(objs: Seq<ObjectModel>, l: Seq<ValueModel>, n: nat)
    requires
        n <= l.len(),
        resolve_all(objs, l.subrange(0, n as int)) is None,
    ensures
        resolve_all(objs, l) is None,
    decreases l.len() - n,
{
    if n < l.len() {
        let next = l.subrange(0, n + 1 as int);
        assert(next.drop_last() =~= l.subrange(0, n as int));
        lemma_resolve_all_none(objs, l, n + 1);
    } else {
        assert(l.subrange(0, n as int) =~= l);
    }
}


pub open spec fn named_view(v: Seq<(&String, &Object)>) -> Seq<(Seq<char>, ObjectModel)> {
    v.map_values(|e: (&String, &Object)| (e.0@, e.1@))
}

proof fn lemma_kids_lists_none(ks: Seq<ObjectModel>, n: nat)
    requires
        n <= ks.len(),
        kids_lists(ks.subrange(0, n as int)) is None,
    ensures
        kids_lists(ks) is None,
    decreases ks.len() - n,
{
    if n < ks.len() {
        assert(ks.subrange(0, n + 1 as int).drop_last() =~= ks.subrange(0, n as int));
        lemma_kids_lists_none(ks, n + 1);
    } else {
        assert(ks.subrange(0, n as int) =~= ks);
    }
}

impl PDF {
    /// The objects one level below the page tree root's kids.
    pub fn get_pages_grand_kids(&self) -> (r: Option<Vec<&Object>>)
        ensures
            match r {
                Some(v) => pages_grand_kids_spec(self@) == Some(refs_view(v@)),
                None => pages_grand_kids_spec(self@) is None,
            },
    {
        let kids = match self.get_pages_kids() {
            Some(k) => k,
            None => {
                return None;
            },
        };
        let ghost kv = refs_view(kids@);
        let mut refs: Vec<&Value> = Vec::new();
        let mut i: usize = 0;
        assert(value_refs_view(refs@) =~= Seq::<ValueModel>::empty());
        while i < kids.len()
            invariant
                i <= kids@.len(),
                kv == refs_view(kids@),
                pages_kids_spec(self@) == Some(kv),
                kids_lists(kv.subrange(0, i as int)) == Some(value_refs_view(refs@)),
            decreases kids@.len() - i,
        {
            assert(kv.subrange(0, i + 1).drop_last() =~= kv.subrange(0, i as int));
            assert(kv.subrange(0, i + 1).last() == kids@[i as int]@);
            match kids[i].dict_get("Kids") {
                Some(Value::List(l)) => {
                    proof {
                        lemma_list_view(*l);
                    }
                    let mut j: usize = 0;
                    let ghost r0 = value_refs_view(refs@);
                    assert(values_view(l@).subrange(0, 0) =~= Seq::<ValueModel>::empty());
                    assert(r0 + Seq::<ValueModel>::empty() =~= r0);
                    while j < l.len()
                        invariant
                            j <= l@.len(),
                            value_refs_view(refs@) == r0 + values_view(l@).subrange(0, j as int),
                        decreases l@.len() - j,
                    {
                        let ghost before = value_refs_view(refs@);
                        let x = &l[j];
                        assert(x@ == values_view(l@)[j as int]);
                        refs.push(x);
                        assert(value_refs_view(refs@) =~= before.push(x@));
                        assert(values_view(l@).subrange(0, j + 1) =~= values_view(l@).subrange(0, j as int).push(x@));
                        assert(r0 + values_view(l@).subrange(0, j + 1) =~= (r0 + values_view(l@).subrange(0, j as int)).push(x@));
                        j = j + 1;
                    }
                    assert(values_view(l@).subrange(0, j as int) =~= values_view(l@));
                },
                _ => {
                    proof {
                        lemma_kids_lists_none(kv, (i + 1) as nat);
                    }
                    return None;
                },
            }
            i = i + 1;
        }
        assert(kv.subrange(0, i as int) =~= kv);
        self.resolve_all(&refs)
    }

    /// The streams of the kids' `Contents` objects.
    pub fn get_contents(&self) -> (r: Vec<&[u8]>)
        ensures
            r@.map_values(|b: &[u8]| b@) == contents_spec(self@),
    {
        let mut out: Vec<&[u8]> = Vec::new();
        let kids = match self.get_pages_kids() {
            Some(k) => k,
            None => {
                assert(out@.map_values(|b: &[u8]| b@) =~= Seq::<Seq<u8>>::empty());
                return out;
            },
        };
        let ghost kv = refs_view(kids@);
        let mut i: usize = 0;
        assert(out@.map_values(|b: &[u8]| b@) =~= Seq::<Seq<u8>>::empty());
        while i < kids.len()
            invariant
                i <= kids@.len(),
                kv == refs_view(kids@),
                contents_of(self@.objects, kv.subrange(0, i as int)) == out@.map_values(|b: &[u8]| b@),
            decreases kids@.len() - i,
        {
            assert(kv.subrange(0, i + 1).drop_last() =~= kv.subrange(0, i as int));
            assert(kv.subrange(0, i + 1).last() == kids@[i as int]@);
            match self.follow(kids[i], "Contents") {
                Some(c) => {
                    let ghost before = out@;
                    out.push(c.stream());
                    assert(out@.map_values(|b: &[u8]| b@) =~= before.map_values(|b: &[u8]| b@).push(c@.stream));
                },
                None => {},
            }
            i = i + 1;
        }
        assert(kv.subrange(0, i as int) =~= kv);
        out
    }

    /// The ids that the kids' `Contents` entries refer to.
    pub fn get_contents_id(&self) -> (r: Vec<(usize, usize)>)
        ensures
            r@ == contents_ids_spec(self@),
    {
        let mut out: Vec<(usize, usize)> = Vec::new();
        let kids = match self.get_pages_kids() {
            Some(k) => k,
            None => {
                assert(out@ =~= Seq::<(usize, usize)>::empty());
                return out;
            },
        };
        let ghost kv = refs_view(kids@);
        let mut i: usize = 0;
        assert(out@ =~= Seq::<(usize, usize)>::empty());
        while i < kids.len()
            invariant
                i <= kids@.len(),
                kv == refs_view(kids@),
                contents_ids_of(kv.subrange(0, i as int)) == out@,
            decreases kids@.len() - i,
        {
            assert(kv.subrange(0, i + 1).drop_last() =~= kv.subrange(0, i as int));
            assert(kv.subrange(0, i + 1).last() == kids@[i as int]@);
            match kids[i].dict_get("Contents") {
                Some(Value::Ref(a, b)) => {
                    out.push((*a, *b));
                },
                _ => {},
            }
            i = i + 1;
        }
        assert(kv.subrange(0, i as int) =~= kv);
        out
    }

    /// The fonts of the page tree root's resources, by name.
    pub fn get_fonts(&self) -> (r: Vec<(&String, &Object)>)
        ensures
            named_view(r@) == fonts_spec(self@),
    {
        let mut out: Vec<(&String, &Object)> = Vec::new();
        assert(named_view(out@) =~= Seq::<(Seq<char>, ObjectModel)>::empty());
        let pg = match self.get_pages() {
            Some(p) => p,
            None => {
                return out;
            },
        };
        let fonts = match pg.dict_get("Resources") {
            Some(Value::Dict(res)) => match res.get("Font") {
                Some(Value::Dict(fs)) => fs,
                _ => {
                    return out;
                },
            },
            _ => {
                return out;
            },
        };
        proof {
            lemma_entries_view(*fonts);
        }
        let ghost fv = fonts@;
        let mut i: usize = 0;
        while i < fonts.entries.len()
            invariant
                i <= fonts.entries@.len(),
                fv == fonts@,
                fv.len() == fonts.entries@.len(),
                forall|t: int| 0 <= t < fv.len() ==> #[trigger] fv[t] == (fonts.entries@[t].0@, fonts.entries@[t].1@),
                named_objects(self@.objects, fv.subrange(0, i as int)) == named_view(out@),
            decreases fonts.entries@.len() - i,
        {
            assert(fv.subrange(0, i + 1).drop_last() =~= fv.subrange(0, i as int));
            assert(fv.subrange(0, i + 1).last() == fv[i as int]);
            let e = &fonts.entries[i];
            match &e.1 {
                Value::Ref(a, b) => match self.get(&(*a, *b)) {
                    Some(o) => {
                        let ghost before = out@;
                        out.push((&e.0, o));
                        assert(named_view(out@) =~= named_view(before).push((e.0@, o@)));
                    },
                    None => {},
                },
                _ => {},
            }
            i = i + 1;
        }
        assert(fv.subrange(0, i as int) =~= fv);
        out
    }

    /// The streams of the objects whose `Type` is `CMap`.
    pub fn get_cmaps(&self) -> (r: Vec<&[u8]>)
        ensures
            r@.map_values(|b: &[u8]| b@) == cmaps_of(self@.objects),
    {
        let mut out: Vec<&[u8]> = Vec::new();
        let ghost ov = self@.objects;
        let mut i: usize = 0;
        assert(out@.map_values(|b: &[u8]| b@) =~= Seq::<Seq<u8>>::empty());
        while i < self.objects.len()
            invariant
                i <= self.objects@.len(),
                ov == objects_view(self.objects@),
                cmaps_of(ov.subrange(0, i as int)) == out@.map_values(|b: &[u8]| b@),
            decreases self.objects@.len() - i,
        {
            assert(ov.subrange(0, i + 1).drop_last() =~= ov.subrange(0, i as int));
            assert(ov.subrange(0, i + 1).last() == self.objects@[i as int]@);
            let o = &self.objects[i];
            let cmap = match o.dict_get("Type") {
                Some(Value::Key(k)) => str_eq(k.as_str(), "CMap"),
                _ => false,
            };
            if cmap {
                let ghost before = out@;
                out.push(o.stream());
                assert(out@.map_values(|b: &[u8]| b@) =~= before.map_values(|b: &[u8]| b@).push(o@.stream));
            }
            i = i + 1;
        }
        assert(ov.subrange(0, i as int) =~= ov);
        out
    }

    /// The CMap streams that are ASCII text, as text.
    pub fn get_cmaps_lines(&self) -> (r: Vec<String>)
        ensures
            r@.map_values(|s: String| s@) == cmap_lines_of(self@.objects),
    {
        let mut out: Vec<String> = Vec::new();
        let ghost ov = self@.objects;
        let mut i: usize = 0;
        assert(out@.map_values(|s: String| s@) =~= Seq::<Seq<char>>::empty());
        while i < self.objects.len()
            invariant
                i <= self.objects@.len(),
                ov == objects_view(self.objects@),
                cmap_lines_of(ov.subrange(0, i as int)) == out@.map_values(|s: String| s@),
            decreases self.objects@.len() - i,
        {
            assert(ov.subrange(0, i + 1).drop_last() =~= ov.subrange(0, i as int));
            assert(ov.subrange(0, i + 1).last() == self.objects@[i as int]@);
            let o = &self.objects[i];
            let cmap = match o.dict_get("Type") {
                Some(Value::Key(k)) => str_eq(k.as_str(), "CMap"),
                _ => false,
            };
            if cmap && ascii_only(&o.stream) {
                let ghost before = out@;
                let text = lexer::text_of_bytes(&o.stream);
                out.push(text);
                assert(out@.map_values(|s: String| s@) =~= before.map_values(|s: String| s@).push(
                    lexer::chars_of(o@.stream),
                ));
            }
            i = i + 1;
        }
        assert(ov.subrange(0, i as int) =~= ov);
        out
    }

    /// The objects that the fonts' `DescendantFonts` lists refer to.
    pub fn get_descendant_fonts(&self) -> (r: Vec<&Object>)
        ensures
            refs_view(r@) == descendant_fonts_spec(self@),
    {
        let fonts = self.get_fonts();
        let ghost fv = named_view(fonts@);
        let mut out: Vec<&Object> = Vec::new();
        let mut i: usize = 0;
        assert(refs_view(out@) =~= Seq::<ObjectModel>::empty());
        while i < fonts.len()
            invariant
                i <= fonts@.len(),
                fv == named_view(fonts@),
                fv == fonts_spec(self@),
                descendants_of(self@.objects, fv.subrange(0, i as int)) == refs_view(out@),
            decreases fonts@.len() - i,
        {
            assert(fv.subrange(0, i + 1).drop_last() =~= fv.subrange(0, i as int));
            assert(fv.subrange(0, i + 1).last() == (fonts@[i as int].0@, fonts@[i as int].1@));
            match fonts[i].1.dict_get("DescendantFonts") {
                Some(Value::List(l)) => {
                    proof {
                        lemma_list_view(*l);
                    }
                    let ghost r0 = refs_view(out@);
                    let ghost lv = values_view(l@);
                    let mut j: usize = 0;
                    assert(resolve_some(self@.objects, lv.subrange(0, 0)) =~= Seq::<ObjectModel>::empty());
                    while j < l.len()
                        invariant
                            j <= l@.len(),
                            lv == values_view(l@),
                            refs_view(out@) == r0 + resolve_some(self@.objects, lv.subrange(0, j as int)),
                        decreases l@.len() - j,
                    {
                        assert(lv.subrange(0, j + 1).drop_last() =~= lv.subrange(0, j as int));
                        match &l[j] {
                            Value::Ref(a, b) => match self.get(&(*a, *b)) {
                                Some(o) => {
                                    let ghost before = out@;
                                    out.push(o);
                                    assert(refs_view(out@) =~= refs_view(before).push(o@));
                                    assert(r0 + resolve_some(self@.objects, lv.subrange(0, j + 1)) =~= (r0 + resolve_some(self@.objects, lv.subrange(0, j as int))).push(o@));
                                },
                                None => {},
                            },
                            _ => {},
                        }
                        j = j + 1;
                    }
                    assert(lv.subrange(0, j as int) =~= lv);
                },
                _ => {},
            }
            i = i + 1;
        }
        assert(fv.subrange(0, i as int) =~= fv);
        out
    }

    /// The objects that the descendant fonts' `FontDescriptor` entries refer to.
    pub fn get_font_describtors(&self) -> (r: Vec<&Object>)
        ensures
            refs_view(r@) == font_descriptors_spec(self@),
    {
        let fonts = self.get_descendant_fonts();
        let ghost fv = refs_view(fonts@);
        let mut out: Vec<&Object> = Vec::new();
        let mut i: usize = 0;
        assert(refs_view(out@) =~= Seq::<ObjectModel>::empty());
        while i < fonts.len()
            invariant
                i <= fonts@.len(),
                fv == refs_view(fonts@),
                descriptors_of(self@.objects, fv.subrange(0, i as int)) == refs_view(out@),
            decreases fonts@.len() - i,
        {
            assert(fv.subrange(0, i + 1).drop_last() =~= fv.subrange(0, i as int));
            assert(fv.subrange(0, i + 1).last() == fonts@[i as int]@);
            match self.follow(fonts[i], "FontDescriptor") {
                Some(o) => {
                    let ghost before = out@;
                    out.push(o);
                    assert(refs_view(out@) =~= refs_view(before).push(o@));
                },
                None => {},
            }
            i = i + 1;
        }
        assert(fv.subrange(0, i as int) =~= fv);
        out
    }
}

pub open spec fn value_refs_view(v: Seq<&Value>) -> Seq<ValueModel> {
    v.map_values(|x: &Value| x@)
}

fn borrow_all(l: &Vec<Value>) -> (r: Vec<&Value>)
    ensures
        value_refs_view(r@) == values_view(l@),
{
    let mut out: Vec<&Value> = Vec::new();
    let mut i: usize = 0;
    while i < l.len()
        invariant
            i <= l@.len(),
            value_refs_view(out@) == values_view(l@).subrange(0, i as int),
        decreases l@.len() - i,
    {
        let ghost before = value_refs_view(out@);
        let x = &l[i];
        assert(x@ == values_view(l@)[i as int]);
        out.push(x);
        assert(value_refs_view(out@) =~= before.push(x@));
        assert(values_view(l@).subrange(0, i + 1) =~= values_view(l@).subrange(0, i as int).push(x@));
        i = i + 1;
    }
    assert(values_view(l@).subrange(0, i as int) =~= values_view(l@));
    out
}

fn ascii_only(b: &Vec<u8>) -> (r: bool)
    ensures
        r == all_ascii(b@),
{
    let mut i: usize = 0;
    while i < b.len()
        invariant
            i <= b@.len(),
            forall|j: int| 0 <= j < i ==> b@[j] < 128,
        decreases b@.len() - i,
    {
        if b[i] >= 128 {
            return false;
        }
        i = i + 1;
    }
    true
}


// ---------------------------------------------------------------------
// All references

pub type RefPath = Seq<(Seq<char>, (usize, usize))>;

pub type Triples = Seq<((usize, usize), Seq<char>, ObjectModel)>;

/// The key path of an entry `k` inside `path`.
pub open spec fn join(path: Seq<char>, k: Seq<char>) -> Seq<char> {
    if path.len() == 0 {
        k
    } else {
        path + seq!['/'] + k
    }
}

/// Every reference inside `v`, with its key path: `/` joins the keys of
/// nested dictionaries, `[]` marks a list.
pub open spec fn refs_in_value(v: ValueModel, path: Seq<char>) -> RefPath
    decreases v, 0nat,
{
    match v {
        ValueModel::Ref(a, b) => seq![(path, (a, b))],
        ValueModel::List(l) => refs_in_list(l, path + "[]"@, l.len()),
        ValueModel::Dict(es) => refs_in_entries(es, path, es.len()),
        _ => Seq::empty(),
    }
}

/// The references inside the first `n` items of `l`.
pub open spec fn refs_in_list(l: Seq<ValueModel>, path: Seq<char>, n: nat) -> RefPath
    decreases l, n,
{
    if n == 0 || n > l.len() {
        Seq::empty()
    } else {
        refs_in_list(l, path, (n - 1) as nat) + refs_in_value(l[n - 1], path)
    }
}

/// The references inside the first `n` entries of `es`.
pub open spec fn refs_in_entries(es: Entries, path: Seq<char>, n: nat) -> RefPath
    decreases es, n,
{
    if n == 0 || n > es.len() {
        Seq::empty()
    } else {
        refs_in_entries(es, path, (n - 1) as nat) + refs_in_value(es[n - 1].1, join(path, es[n - 1].0))
    }
}

/// The references of `rs` that name an object, as triples of the owner's
/// id, the key path and the object named.
pub open spec fn resolved_refs(objs: Seq<ObjectModel>, owner: (usize, usize), rs: RefPath) -> Triples
    decreases rs.len(),
{
    if rs.len() == 0 {
        Seq::empty()
    } else {
        let rest = resolved_refs(objs, owner, rs.drop_last());
        match resolve(objs, rs.last().1) {
            Some(o) => rest.push((owner, rs.last().0, o)),
            None => rest,
        }
    }
}

/// The references of the objects `os`, object after object.
pub open spec fn object_refs(objs: Seq<ObjectModel>, os: Seq<ObjectModel>) -> Triples
    decreases os.len(),
{
    if os.len() == 0 {
        Seq::empty()
    } else {
        let o = os.last();
        let es = entries_of(o.value);
        object_refs(objs, os.drop_last()) + resolved_refs(objs, o.id, refs_in_entries(es, Seq::empty(), es.len()))
    }
}

/// The trailer's references (owner `(0, 0)`), then every object's.
pub open spec fn references_spec(p: PdfModel) -> Triples {
    resolved_refs(p.objects, (0, 0), refs_in_entries(p.meta, Seq::empty(), p.meta.len()))
        + object_refs(p.objects, p.objects)
}

pub proof fn lemma_resolved_refs_concat(objs: Seq<ObjectModel>, owner: (usize, usize), a: RefPath, b: RefPath)
    ensures
        resolved_refs(objs, owner, a + b) == resolved_refs(objs, owner, a) + resolved_refs(objs, owner, b),
    decreases b.len(),
{
    if b.len() == 0 {
        assert(a + b =~= a);
        assert(resolved_refs(objs, owner, a) + resolved_refs(objs, owner, b) =~= resolved_refs(objs, owner, a));
    } else {
        assert((a + b).drop_last() =~= a + b.drop_last());
        lemma_resolved_refs_concat(objs, owner, a, b.drop_last());
        let rest = resolved_refs(objs, owner, a) + resolved_refs(objs, owner, b.drop_last());
        match resolve(objs, b.last().1) {
            Some(o) => {
                assert(rest.push((owner, b.last().0, o)) =~= resolved_refs(objs, owner, a) + resolved_refs(objs, owner, b.drop_last()).push((owner, b.last().0, o)));
            },
            None => {},
        }
    }
}

proof fn lemma_resolved_single(objs: Seq<ObjectModel>, owner: (usize, usize), x: (Seq<char>, (usize, usize)))
    ensures
        resolved_refs(objs, owner, seq![x]) == match resolve(objs, x.1) {
            Some(o) => seq![(owner, x.0, o)],
            None => Seq::empty(),
        },
{
    assert(seq![x].drop_last() =~= Seq::<(Seq<char>, (usize, usize))>::empty());
    assert(resolved_refs(objs, owner, Seq::<(Seq<char>, (usize, usize))>::empty()) == Seq::<((usize, usize), Seq<char>, ObjectModel)>::empty());
    match resolve(objs, x.1) {
        Some(o) => {
            assert(Seq::<((usize, usize), Seq<char>, ObjectModel)>::empty().push((owner, x.0, o)) =~= seq![(owner, x.0, o)]);
        },
        None => {},
    }
}

pub open spec fn triples_view(v: Seq<((usize, usize), String, &Object)>) -> Triples {
    v.map_values(|t: ((usize, usize), String, &Object)| (t.0, t.1@, t.2@))
}

fn append_str(s: &mut String, t: &str)
    ensures
        final(s)@ == old(s)@ + t@,
{
    let n = t.unicode_len();
    let mut i: usize = 0;
    let ghost s0 = s@;
    while i < n
        invariant
            n == t@.len(),
            i <= n,
            s@ == s0 + t@.subrange(0, i as int),
        decreases n - i,
    {
        let c = t.get_char(i);
        lexer::push_char(s, c);
        assert(s0 + t@.subrange(0, i + 1) =~= (s0 + t@.subrange(0, i as int)).push(c));
        i = i + 1;
    }
    assert(t@.subrange(0, i as int) =~= t@);
}

fn join_exec(path: &String, k: &String) -> (r: String)
    ensures
        r@ == join(path@, k@),
{
    let mut r = String::new();
    if path.as_str().unicode_len() > 0 {
        append_str(&mut r, path.as_str());
        lexer::push_char(&mut r, '/');
    }
    append_str(&mut r, k.as_str());
    proof {
        if path@.len() > 0 {
            assert(r@ =~= path@ + seq!['/'] + k@);
        } else {
            assert(r@ =~= k@);
        }
    }
    r
}

impl PDF {
    /// Every reference that names an object: the trailer's first (with
    /// owner `(0, 0)`), then each object's, with the owning object's id and
    /// the key path. References that name no object are passed over.
    pub fn get_references(&self) -> (r: Vec<((usize, usize), String, &Object)>)
        ensures
            triples_view(r@) == references_spec(self@),
    {
        let mut out: Vec<((usize, usize), String, &Object)> = Vec::new();
        assert(triples_view(out@) =~= Seq::empty());
        let empty = String::new();
        proof {
            lemma_entries_view(self.meta);
        }
        let meta_value = &self.meta;
        self.collect_entries(meta_value, &empty, (0, 0), &mut out);
        assert(triples_view(out@) =~= resolved_refs(self@.objects, (0, 0), refs_in_entries(self@.meta, Seq::empty(), self@.meta.len())));
        let ghost t0 = triples_view(out@);
        let ghost ov = self@.objects;
        let mut i: usize = 0;
        assert(t0 + object_refs(ov, ov.subrange(0, 0)) =~= t0);
        while i < self.objects.len()
            invariant
                i <= self.objects@.len(),
                ov == objects_view(self.objects@),
                ov == self@.objects,
                empty@ == Seq::<char>::empty(),
                triples_view(out@) == t0 + object_refs(ov, ov.subrange(0, i as int)),
            decreases self.objects@.len() - i,
        {
            let o = &self.objects[i];
            assert(ov.subrange(0, i + 1).drop_last() =~= ov.subrange(0, i as int));
            assert(ov.subrange(0, i + 1).last() == o@);
            let ghost before = triples_view(out@);
            match &o.value {
                Value::Dict(d) => {
                    proof {
                        lemma_entries_view(*d);
                    }
                    self.collect_entries(d, &empty, o.id, &mut out);
                    assert(entries_of(o@.value) == d@);
                    assert(triples_view(out@) == before + resolved_refs(ov, o@.id, refs_in_entries(entries_of(o@.value), Seq::empty(), entries_of(o@.value).len())));
                },
                _ => {
                    assert(entries_of(o@.value) == Seq::<(Seq<char>, ValueModel)>::empty());
                    assert(triples_view(out@) =~= before + resolved_refs(ov, o@.id, refs_in_entries(entries_of(o@.value), Seq::empty(), entries_of(o@.value).len())));
                },
            }
            assert(t0 + object_refs(ov, ov.subrange(0, i + 1)) =~= before + resolved_refs(ov, o@.id,
                refs_in_entries(entries_of(o@.value), Seq::empty(), entries_of(o@.value).len())));
            i = i + 1;
        }
        assert(ov.subrange(0, i as int) =~= ov);
        out
    }

    fn collect_entries<'a>(
        &'a self,
        d: &'a Dict,
        path: &String,
        owner: (usize, usize),
        out: &mut Vec<((usize, usize), String, &'a Object)>,
    )
        ensures
            triples_view(final(out)@) == triples_view(old(out)@) + resolved_refs(self@.objects, owner,
                refs_in_entries(d@, path@, d@.len())),
        decreases d, 0nat,
    {
        proof {
            lemma_entries_view(*d);
        }
        let ghost t0 = triples_view(out@);
        let ghost es = d@;
        let mut i: usize = 0;
        assert(t0 + resolved_refs(self@.objects, owner, refs_in_entries(es, path@, 0)) =~= t0);
        while i < d.entries.len()
            invariant
                i <= d.entries@.len(),
                es == d@,
                es.len() == d.entries@.len(),
                forall|t: int| 0 <= t < es.len() ==> #[trigger] es[t] == (d.entries@[t].0@, d.entries@[t].1@),
                triples_view(out@) == t0 + resolved_refs(self@.objects, owner, refs_in_entries(es, path@, i as nat)),
            decreases d.entries@.len() - i,
        {
            let e = &d.entries[i];
            assert(es[i as int] == (e.0@, e.1@));
            let p = join_exec(path, &e.0);
            let ghost before = triples_view(out@);
            self.collect_value(&e.1, &p, owner, out);
            proof {
                lemma_resolved_refs_concat(self@.objects, owner, refs_in_entries(es, path@, i as nat),
                    refs_in_value(es[i as int].1, join(path@, es[i as int].0)));
            }
            assert(t0 + resolved_refs(self@.objects, owner, refs_in_entries(es, path@, (i + 1) as nat)) =~= before + resolved_refs(self@.objects, owner, refs_in_value(e.1@, p@)));
            i = i + 1;
        }
    }

    fn collect_value<'a>(
        &'a self,
        v: &'a Value,
        path: &String,
        owner: (usize, usize),
        out: &mut Vec<((usize, usize), String, &'a Object)>,
    )
        ensures
            triples_view(final(out)@) == triples_view(old(out)@) + resolved_refs(self@.objects, owner,
                refs_in_value(v@, path@)),
        decreases v, 1nat,
    {
        let ghost t0 = triples_view(out@);
        match v {
            Value::Ref(a, b) => {
                assert(seq![(path@, (*a, *b))].drop_last() =~= Seq::<(Seq<char>, (usize, usize))>::empty());
                match self.get(&(*a, *b)) {
                    Some(o) => {
                        let name = path.clone();
                        out.push((owner, name, o));
                        assert(triples_view(out@) =~= t0.push((owner, path@, o@)));
                        assert(refs_in_value(v@, path@) == seq![(path@, (*a, *b))]);
                        proof {
                            lemma_resolved_single(self@.objects, owner, (path@, (*a, *b)));
                        }
                        assert(triples_view(out@) =~= t0 + resolved_refs(self@.objects, owner, refs_in_value(v@, path@)));
                    },
                    None => {
                        proof {
                            lemma_resolved_single(self@.objects, owner, (path@, (*a, *b)));
                        }
                        assert(refs_in_value(v@, path@) == seq![(path@, (*a, *b))]);
                        assert(triples_view(out@) =~= t0 + resolved_refs(self@.objects, owner, refs_in_value(v@, path@)));
                    },
                }
            },
            Value::List(l) => {
                proof {
                    lemma_list_view(*l);
                }
                let mut p = path.clone();
                append_str(&mut p, "[]");
                let ghost lv = values_view(l@);
                let mut i: usize = 0;
                assert(t0 + resolved_refs(self@.objects, owner, refs_in_list(lv, p@, 0)) =~= t0);
                while i < l.len()
                    invariant
                        i <= l@.len(),
                        lv == values_view(l@),
                        *v == Value::List(*l),
                        triples_view(out@) == t0 + resolved_refs(self@.objects, owner, refs_in_list(lv, p@, i as nat)),
                    decreases l@.len() - i,
                {
                    let ghost before = triples_view(out@);
                    proof {
                        vstd::std_specs::vec::axiom_vec_index_decreases(*l, i as int);
                        assert(decreases_to!(*v => (*v)->List_0));
                        assert(decreases_to!(*l => l[i as int]));
                        assert(decreases_to!(*v => l[i as int]));
                    }
                    self.collect_value(&l[i], &p, owner, out);
                    proof {
                        lemma_resolved_refs_concat(self@.objects, owner, refs_in_list(lv, p@, i as nat),
                            refs_in_value(lv[i as int], p@));
                    }
                    assert(t0 + resolved_refs(self@.objects, owner, refs_in_list(lv, p@, (i + 1) as nat)) =~= before + resolved_refs(self@.objects, owner, refs_in_value(l@[i as int]@, p@)));
                    i = i + 1;
                }
            },
            Value::Dict(d) => {
                self.collect_entries(d, path, owner, out);
            },
            _ => {
                assert(triples_view(out@) =~= t0 + resolved_refs(self@.objects, owner, refs_in_value(v@, path@)));
            },
        }
    }
}


// ---------------------------------------------------------------------
// Laws

/// A `FlateDecode` stream holds what its declared bytes inflate to.
pub proof fn lemma_flate_stream(m: LexModel, size: nat, d: Seq<u8>)
    requires
        lexer::raw_fits(m, size),
        lexer::zlib_inflate(lexer::raw_span(m, size)) == Some(d),
    ensures
        stream_data(m, size, true) == (Ok::<Seq<u8>, ParseErrorModel>(d), lexer::raw_advance(m, size)),
{
}

/// Where the trailer's `Root` names no object, every page-tree query
/// comes back empty, without failing.
pub proof fn lemma_dangling_root(p: PdfModel, a: usize, b: usize)
    requires
        lookup(p.meta, "Root"@) == Some(ValueModel::Ref(a, b)),
        resolve(p.objects, (a, b)) is None,
    ensures
        pages_spec(p) is None,
        pages_kids_spec(p) is None,
        pages_grand_kids_spec(p) is None,
        contents_spec(p) == Seq::<Seq<u8>>::empty(),
        contents_ids_spec(p) == Seq::<(usize, usize)>::empty(),
        fonts_spec(p) == Seq::<(Seq<char>, ObjectModel)>::empty(),
        descendant_fonts_spec(p) == Seq::<ObjectModel>::empty(),
        font_descriptors_spec(p) == Seq::<ObjectModel>::empty(),
{
}

/// A reference that names no object adds nothing to the references found.
pub proof fn lemma_dangling_reference(objs: Seq<ObjectModel>, owner: (usize, usize), path: Seq<char>, id: (usize, usize))
    requires
        resolve(objs, id) is None,
    ensures
        resolved_refs(objs, owner, refs_in_value(ValueModel::Ref(id.0, id.1), path)) == Seq::<((usize, usize), Seq<char>, ObjectModel)>::empty(),
{
    lemma_resolved_single(objs, owner, (path, id));
}


/// An object whose dictionary declares a `FlateDecode` stream of `size`
/// bytes that inflate to `d`, closed by `endstream` and `endobj`, holds `d`
/// as its stream.
pub proof fn lemma_flate_object(id: (usize, usize), v: ValueModel, m: LexModel, size: usize, d: Seq<u8>)
    requires
        next_spec(m).0 == Some(TokenModel::StreamStart),
        stream_length(entries_of(v)) == Some(size),
        is_flate(entries_of(v)),
        lexer::raw_fits(next_spec(m).1, size as nat),
        lexer::zlib_inflate(lexer::raw_span(next_spec(m).1, size as nat)) == Some(d),
        next_spec(lexer::raw_advance(next_spec(m).1, size as nat)).0 == Some(TokenModel::StreamEnd),
        next_spec(next_spec(lexer::raw_advance(next_spec(m).1, size as nat)).1).0 == Some(
            TokenModel::ObjectEnd,
        ),
    ensures
        object_rest(id, v, m).0 == Ok::<ObjectModel, ParseErrorModel>(
            ObjectModel { id, value: v, stream: d },
        ),
{
}

/// A reference nested in dictionaries and a list is found under the names
/// of the entries that lead to it, joined by `/`, with `[]` for the list.
pub proof fn lemma_nested_reference_path(
    objs: Seq<ObjectModel>,
    owner: (usize, usize),
    a: Seq<char>,
    b: Seq<char>,
    c: Seq<char>,
    id: (usize, usize),
    o: ObjectModel,
)
    requires
        a.len() > 0,
        b.len() > 0,
        resolve(objs, id) == Some(o),
    ensures
        ({
            let inner = ValueModel::Dict(seq![(c, ValueModel::List(seq![ValueModel::Ref(id.0, id.1)]))]);
            let es = seq![(a, ValueModel::Dict(seq![(b, inner)]))];
            let path = a + seq!['/'] + b + seq!['/'] + c + "[]"@;
            resolved_refs(objs, owner, refs_in_entries(es, Seq::empty(), 1)) == seq![(owner, path, o)]
        }),
{
    let r = ValueModel::Ref(id.0, id.1);
    let l = seq![r];
    let inner = ValueModel::Dict(seq![(c, ValueModel::List(l))]);
    let mid = seq![(b, inner)];
    let es = seq![(a, ValueModel::Dict(mid))];
    let p_ab = a + seq!['/'] + b;
    let path = p_ab + seq!['/'] + c + "[]"@;
    let e: Seq<(Seq<char>, (usize, usize))> = Seq::empty();
    assert(refs_in_list(l, p_ab + seq!['/'] + c + "[]"@, 0) == e);
    assert(refs_in_value(r, path) == seq![(path, id)]);
    assert(refs_in_list(l, path, 1) =~= seq![(path, id)]);
    assert(join(p_ab, c) == p_ab + seq!['/'] + c);
    assert(refs_in_value(ValueModel::List(l), join(p_ab, c)) == seq![(path, id)]);
    let inner_es = seq![(c, ValueModel::List(l))];
    assert(refs_in_entries(inner_es, p_ab, 0) == e);
    assert(refs_in_entries(inner_es, p_ab, 1) =~= seq![(path, id)]);
    assert(join(a, b) == p_ab);
    assert(refs_in_value(inner, join(a, b)) == seq![(path, id)]);
    assert(refs_in_entries(mid, a, 0) == e);
    assert(refs_in_entries(mid, a, 1) =~= seq![(path, id)]);
    assert(join(Seq::<char>::empty(), a) == a);
    assert(refs_in_value(ValueModel::Dict(mid), join(Seq::<char>::empty(), a)) == seq![(path, id)]);
    assert(refs_in_entries(es, Seq::empty(), 0) == e);
    assert(refs_in_entries(es, Seq::empty(), 1) =~= seq![(path, id)]);
    lemma_resolved_single(objs, owner, (path, id));
}

/// A kid reference that names no object leaves the kids absent.
pub proof fn lemma_dangling_kid(objs: Seq<ObjectModel>, l: Seq<ValueModel>, i: int, a: usize, b: usize)
    requires
        0 <= i < l.len(),
        l[i] == ValueModel::Ref(a, b),
        resolve(objs, (a, b)) is None,
    ensures
        resolve_all(objs, l) is None,
    decreases l.len(),
{
    if i < l.len() - 1 {
        lemma_dangling_kid(objs, l.drop_last(), i, a, b);
    }
}

/// Dangling references are passed over by the contents, font, descendant
/// font and descriptor queries: appending one changes nothing.
pub proof fn lemma_dangling_skipped(
    objs: Seq<ObjectModel>,
    ks: Seq<ObjectModel>,
    k: ObjectModel,
    fs: Entries,
    name: Seq<char>,
    l: Seq<ValueModel>,
    a: usize,
    b: usize,
)
    requires
        resolve(objs, (a, b)) is None,
    ensures
        obj_lookup(k, "Contents"@) == Some(ValueModel::Ref(a, b)) ==> contents_of(objs, ks.push(k))
            == contents_of(objs, ks),
        obj_lookup(k, "FontDescriptor"@) == Some(ValueModel::Ref(a, b)) ==> descriptors_of(
            objs,
            ks.push(k),
        ) == descriptors_of(objs, ks),
        named_objects(objs, fs.push((name, ValueModel::Ref(a, b)))) == named_objects(objs, fs),
        resolve_some(objs, l.push(ValueModel::Ref(a, b))) == resolve_some(objs, l),
{
    assert(ks.push(k).drop_last() =~= ks);
    assert(fs.push((name, ValueModel::Ref(a, b))).drop_last() =~= fs);
    assert(l.push(ValueModel::Ref(a, b)).drop_last() =~= l);
}


/// A copy of a value.
pub fn copy_value(v: &Value) -> (r: Value)
    ensures
        r@ == v@,
    decreases v, 1nat,
{
    match v {
        Value::Number(n) => Value::Number(*n),
        Value::String(b) => Value::String(crate::postscript::parser::copy_bytes(b)),
        Value::Key(k) => Value::Key(k.clone()),
        Value::List(l) => {
            let mut out: Vec<Value> = Vec::new();
            let mut i: usize = 0;
            while i < l.len()
                invariant
                    i <= l@.len(),
                    *v == Value::List(*l),
                    values_view(out@) == values_view(l@).subrange(0, i as int),
                decreases l@.len() - i,
            {
                proof {
                    vstd::std_specs::vec::axiom_vec_index_decreases(*l, i as int);
                    assert(decreases_to!(*v => (*v)->List_0));
                }
                let x = copy_value(&l[i]);
                let ghost before = values_view(out@);
                out.push(x);
                assert(values_view(out@) =~= before.push(l@[i as int]@));
                assert(values_view(l@).subrange(0, i + 1) =~= values_view(l@).subrange(0, i as int).push(l@[i as int]@));
                i = i + 1;
            }
            assert(values_view(l@).subrange(0, i as int) =~= values_view(l@));
            proof {
                lemma_list_view(out);
                lemma_list_view(*l);
            }
            Value::List(out)
        },
        Value::Ref(a, b) => Value::Ref(*a, *b),
        Value::Dict(d) => Value::Dict(copy_dict(d)),
        Value::Id(x) => Value::Id(*x),
        Value::Null => Value::Null,
        Value::Bool(b) => Value::Bool(*b),
    }
}

/// A copy of a dictionary.
pub fn copy_dict(d: &Dict) -> (r: Dict)
    ensures
        r@ == d@,
    decreases d, 0nat,
{
    proof {
        lemma_entries_view(*d);
    }
    let mut out: Vec<(String, Value)> = Vec::new();
    let mut i: usize = 0;
    while i < d.entries.len()
        invariant
            i <= d.entries@.len(),
            out@.len() == i,
            forall|j: int| 0 <= j < i ==> #[trigger] out@[j].0@ == d.entries@[j].0@ && out@[j].1@ == d.entries@[j].1@,
        decreases d.entries@.len() - i,
    {
        proof {
            vstd::std_specs::vec::axiom_vec_index_decreases(d.entries, i as int);
        }
        let e = &d.entries[i];
        let k = e.0.clone();
        let x = copy_value(&e.1);
        out.push((k, x));
        i = i + 1;
    }
    let r = Dict { entries: out };
    proof {
        lemma_entries_view(r);
    }
    assert(r@ =~= d@);
    r
}


/// The object `o` is one of the document's objects.
pub open spec fn is_object_of(objs: Seq<ObjectModel>, o: ObjectModel) -> bool {
    exists|j: int| 0 <= j < objs.len() && objs[j] == o
}

/// Every triple names an object of the document.
pub open spec fn targets_resolve(objs: Seq<ObjectModel>, ts: Triples) -> bool {
    forall|i: int| 0 <= i < ts.len() ==> is_object_of(objs, #[trigger] ts[i].2)
}

proof fn lemma_resolved_refs_targets(objs: Seq<ObjectModel>, owner: (usize, usize), rs: RefPath)
    ensures
        targets_resolve(objs, resolved_refs(objs, owner, rs)),
    decreases rs.len(),
{
    if rs.len() > 0 {
        lemma_resolved_refs_targets(objs, owner, rs.drop_last());
        lemma_object_index(objs, rs.last().1);
        let rest = resolved_refs(objs, owner, rs.drop_last());
        if let Some(o) = resolve(objs, rs.last().1) {
            let j = object_index(objs, rs.last().1);
            assert(objs[j] == o);
            let t = rest.push((owner, rs.last().0, o));
            assert forall|i: int| 0 <= i < t.len() implies is_object_of(objs, #[trigger] t[i].2) by {
                if i < rest.len() {
                    assert(t[i] == rest[i]);
                } else {
                    assert(t[i].2 == objs[j]);
                }
            }
        }
    }
}

proof fn lemma_object_refs_targets(objs: Seq<ObjectModel>, os: Seq<ObjectModel>)
    ensures
        targets_resolve(objs, object_refs(objs, os)),
    decreases os.len(),
{
    if os.len() > 0 {
        lemma_object_refs_targets(objs, os.drop_last());
        let o = os.last();
        let es = entries_of(o.value);
        let a = object_refs(objs, os.drop_last());
        let b = resolved_refs(objs, o.id, refs_in_entries(es, Seq::empty(), es.len()));
        lemma_resolved_refs_targets(objs, o.id, refs_in_entries(es, Seq::empty(), es.len()));
        assert forall|i: int| 0 <= i < (a + b).len() implies is_object_of(objs, #[trigger] (a + b)[i].2) by {
            if i < a.len() {
                assert((a + b)[i] == a[i]);
            } else {
                assert((a + b)[i] == b[i - a.len()]);
            }
        }
    }
}

/// Every reference that the reference query lists names an object of the
/// document: references that name none are never listed.
pub proof fn lemma_references_name_objects(p: PdfModel)
    ensures
        targets_resolve(p.objects, references_spec(p)),
{
    let a = resolved_refs(p.objects, (0, 0), refs_in_entries(p.meta, Seq::empty(), p.meta.len()));
    let b = object_refs(p.objects, p.objects);
    lemma_resolved_refs_targets(p.objects, (0, 0), refs_in_entries(p.meta, Seq::empty(), p.meta.len()));
    lemma_object_refs_targets(p.objects, p.objects);
    assert forall|i: int| 0 <= i < (a + b).len() implies is_object_of(p.objects, #[trigger] (a + b)[i].2) by {
        if i < a.len() {
            assert((a + b)[i] == a[i]);
        } else {
            assert((a + b)[i] == b[i - a.len()]);
        }
    }
}


/// A document whose only reference sits in object `o` under `a`, `b`, `c`
/// and a list, naming `t`, lists exactly that reference, with key path
/// `a/b/c[]`.
pub proof fn lemma_nested_reference_document(
    p: PdfModel,
    o: ObjectModel,
    t: ObjectModel,
    a: Seq<char>,
    b: Seq<char>,
    c: Seq<char>,
)
    requires
        a.len() > 0,
        b.len() > 0,
        p.meta.len() == 0,
        p.objects == seq![o, t],
        o.value == ValueModel::Dict(
            seq![(a, ValueModel::Dict(seq![(b, ValueModel::Dict(seq![(c, ValueModel::List(seq![ValueModel::Ref(t.id.0, t.id.1)]))]))]))],
        ),
        entries_of(t.value).len() == 0,
        resolve(p.objects, t.id) == Some(t),
    ensures
        references_spec(p) == seq![(o.id, a + seq!['/'] + b + seq!['/'] + c + "[]"@, t)],
{
    let objs = p.objects;
    let path = a + seq!['/'] + b + seq!['/'] + c + "[]"@;
    let e: Triples = Seq::empty();
    lemma_nested_reference_path(objs, o.id, a, b, c, t.id, t);
    let es_t = entries_of(t.value);
    assert(refs_in_entries(es_t, Seq::empty(), es_t.len()) == Seq::<(Seq<char>, (usize, usize))>::empty());
    assert(resolved_refs(objs, t.id, Seq::<(Seq<char>, (usize, usize))>::empty()) == e);
    assert(objs.drop_last() =~= seq![o]);
    assert(seq![o].drop_last() =~= Seq::<ObjectModel>::empty());
    assert(object_refs(objs, Seq::<ObjectModel>::empty()) == e);
    assert(object_refs(objs, seq![o]) =~= seq![(o.id, path, t)]);
    assert(object_refs(objs, objs) =~= seq![(o.id, path, t)]);
    assert(refs_in_entries(p.meta, Seq::empty(), 0) == Seq::<(Seq<char>, (usize, usize))>::empty());
    assert(references_spec(p) =~= seq![(o.id, path, t)]);
}

} // verus!
