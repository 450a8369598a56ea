use crate::lexer::{Token, TokenModel};
use crate::number::{add_spec, from_int_spec, make, mul_spec, sub_spec, Decimal};
use crate::operation::{fresh_text, runs_view, RunModel, TextModel, TextPaintingOperation, TextState};
use crate::postscript::parser::{one_string, token_text, DecodeError, Operation, OperationModel};
use std::collections::HashMap;
use vstd::prelude::*;
use vstd::string::*;

verus! {

broadcast use {
    vstd::seq_lib::group_seq_properties,
    vstd::std_specs::vec::group_vec_axioms,
    vstd::std_specs::hash::group_hash_axioms,
};

#[derive(Clone, Copy, Debug, PartialEq, Eq, Structural)]
pub enum TextError {
    /// An operator lacks a numeric operand where it needs one.
    BadOperand,
    /// A position or a size left the range of the number type.
    Overflow,
    /// A string did not decode through the code map.
    Decode(DecodeError),
}

/// The operand at `i`, where it is a number.
pub open spec fn number_at(ts: Seq<TokenModel>, i: int) -> Option<Decimal> {
    if 0 <= i < ts.len() && ts[i] is Number {
        Some(ts[i]->Number_0)
    } else {
        None
    }
}

/// `n / 1000`.
pub open spec fn div1000(n: Decimal) -> Option<Decimal> {
    if n.scale + 3 <= u32::MAX {
        Some(make(n.mantissa as int, (n.scale + 3) as nat))
    } else {
        None
    }
}

/// A kerning adjustment of `n` thousandths of the font size: `x -= n / 1000 * size`.
pub open spec fn kern(st: TextModel, n: Decimal) -> Option<TextModel> {
    match div1000(n) {
        Some(k) => match mul_spec(k, st.font_size) {
            Some(d) => match sub_spec(st.x, d) {
                Some(x) => Some(TextModel { x, ..st }),
                None => None,
            },
            None => None,
        },
        None => None,
    }
}

/// Places `text` at the pen, then moves the pen one font size per char.
pub open spec fn show(st: TextModel, text: Seq<char>) -> (TextModel, Option<TextError>) {
    let placed = TextModel {
        runs: st.runs.push(RunModel { x: st.x, y: st.y, text, font_size: st.font_size }),
        ..st
    };
    match mul_spec(from_int_spec(text.len() as int), st.font_size) {
        Some(w) => match add_spec(st.x, w) {
            Some(x) => (TextModel { x, ..placed }, None),
            None => (placed, Some(TextError::Overflow)),
        },
        None => (placed, Some(TextError::Overflow)),
    }
}

/// One element of a `TJ` array.
pub open spec fn tj_one(st: TextModel, t: TokenModel, map: Map<u16, char>) -> (TextModel, Option<TextError>) {
    match t {
        TokenModel::Number(n) => match kern(st, n) {
            Some(s2) => (s2, None),
            None => (st, Some(TextError::Overflow)),
        },
        _ => match one_string(t, map) {
            Err(e) => (st, Some(TextError::Decode(e))),
            Ok(None) => (st, None),
            Ok(Some(text)) => show(st, text),
        },
    }
}

/// The elements of a `TJ` array, in order, up to the first error.
pub open spec fn tj_spec(st: TextModel, ts: Seq<TokenModel>, map: Map<u16, char>) -> (TextModel, Option<TextError>)
    decreases ts.len(),
{
    if ts.len() == 0 {
        (st, None)
    } else {
        let (s1, e1) = tj_spec(st, ts.drop_last(), map);
        if e1 is Some {
            (s1, e1)
        } else {
            tj_one(s1, ts.last(), map)
        }
    }
}

/// The state after one operation, and the error that stopped it, if any.
pub open spec fn apply_op(st: TextModel, op: OperationModel, map: Map<u16, char>) -> (TextModel, Option<TextError>) {
    let ts = op.tokens;
    if op.op == "Tf"@ {
        match number_at(ts, 1) {
            Some(n) => (TextModel { font_size: n, ..st }, None),
            None => (st, Some(TextError::BadOperand)),
        }
    } else if op.op == "Tm"@ {
        match (number_at(ts, 4), number_at(ts, 5)) {
            (Some(e), Some(f)) => (TextModel { x: e, y: f, ..st }, None),
            _ => (st, Some(TextError::BadOperand)),
        }
    } else if op.op == "Td"@ {
        match (number_at(ts, 0), number_at(ts, 1)) {
            (Some(dx), Some(dy)) => match (add_spec(st.x, dx), add_spec(st.y, dy)) {
                (Some(x), Some(y)) => (TextModel { x, y, ..st }, None),
                _ => (st, Some(TextError::Overflow)),
            },
            _ => (st, Some(TextError::BadOperand)),
        }
    } else if op.op == "TJ"@ {
        tj_spec(st, ts, map)
    } else {
        (st, None)
    }
}

fn number_at_exec(ts: &Vec<Token>, i: usize) -> (r: Option<Decimal>)
    ensures
        r == number_at(crate::lexer::tokens_view(ts@), i as int),
{
    if i < ts.len() {
        match &ts[i] {
            Token::Number(n) => Some(*n),
            _ => None,
        }
    } else {
        None
    }
}

fn div1000_exec(n: Decimal) -> (r: Option<Decimal>)
    ensures
        r == div1000(n),
{
    match n.scale.checked_add(3) {
        Some(s) => Some(Decimal::new(n.mantissa, s)),
        None => None,
    }
}

fn kern_exec(state: &mut TextState, n: Decimal) -> (r: bool)
    ensures
        match kern(old(state)@, n) {
            Some(s2) => r && final(state)@ == s2,
            None => !r && final(state)@ == old(state)@,
        },
{
    let k = match div1000_exec(n) {
        Some(k) => k,
        None => {
            return false;
        },
    };
    let d = match k.checked_mul(state.get_font_size()) {
        Some(d) => d,
        None => {
            return false;
        },
    };
    let (x, y) = state.get_pos();
    match x.checked_sub(d) {
        Some(x2) => {
            state.set_pos(x2, y);
            true
        },
        None => false,
    }
}

fn count_chars(s: &String) -> (r: usize)
    ensures
        r == s@.len(),
{
    s.as_str().unicode_len()
}

fn show_exec(state: &mut TextState, text: String) -> (r: Option<TextError>)
    ensures
        (final(state)@, r) == show(old(state)@, text@),
{
    let n = count_chars(&text);
    let size = state.get_font_size();
    let (x, y) = state.get_pos();
    state.push(text);
    match Decimal::from_usize(n).checked_mul(size) {
        Some(w) => match x.checked_add(w) {
            Some(x2) => {
                state.set_pos(x2, y);
                None
            },
            None => Some(TextError::Overflow),
        },
        None => Some(TextError::Overflow),
    }
}

fn tj_exec(state: &mut TextState, ts: &Vec<Token>, babel: &HashMap<u16, char>) -> (r: Option<TextError>)
    ensures
        (final(state)@, r) == tj_spec(old(state)@, crate::lexer::tokens_view(ts@), babel@),
{
    let ghost tv = crate::lexer::tokens_view(ts@);
    let mut i: usize = 0;
    while i < ts.len()
        invariant
            i <= ts@.len(),
            tv == crate::lexer::tokens_view(ts@),
            tj_spec(old(state)@, tv.subrange(0, i as int), babel@) == (state@, None::<TextError>),
        decreases ts@.len() - i,
    {
        assert(tv.subrange(0, i + 1).drop_last() =~= tv.subrange(0, i as int));
        assert(tv.subrange(0, i + 1).last() == ts@[i as int]@);
        let t = &ts[i];
        let err = match t {
            Token::Number(n) => {
                if kern_exec(state, *n) {
                    None
                } else {
                    Some(TextError::Overflow)
                }
            },
            _ => match token_text(t, babel) {
                Err(e) => Some(TextError::Decode(e)),
                Ok(None) => None,
                Ok(Some(text)) => show_exec(state, text),
            },
        };
        if err.is_some() {
            proof {
                lemma_tj_stops(old(state)@, tv, (i + 1) as nat, babel@);
            }
            return err;
        }
        i = i + 1;
    }
    assert(tv.subrange(0, i as int) =~= tv);
    None
}

/// Once an element fails, the rest of the array is not read.
proof fn lemma_tj_stops(st: TextModel, ts: Seq<TokenModel>, n: nat, map: Map<u16, char>)
    requires
        n <= ts.len(),
        tj_spec(st, ts.subrange(0, n as int), map).1 is Some,
    ensures
        tj_spec(st, ts, map) == tj_spec(st, ts.subrange(0, n as int), map),
    decreases ts.len() - n,
{
    if n < ts.len() {
        assert(ts.subrange(0, n + 1 as int).drop_last() =~= ts.subrange(0, n as int));
        lemma_tj_stops(st, ts, n + 1, map);
    } else {
        assert(ts.subrange(0, n as int) =~= ts);
    }
}

/// Applies one operation of a text object to the state: `Tf` sets the
/// font size, `Tm` the position (its translation part), `Td` moves the
/// position, `TJ` places its strings; other operators are ignored.
pub fn handle_text_operation(op: Operation, state: &mut TextState, babel: &HashMap<u16, char>) -> (r: Result<(), TextError>)
    ensures
        final(state)@ == apply_op(old(state)@, op@, babel@).0,
        r == match apply_op(old(state)@, op@, babel@).1 {
            Some(e) => Err::<(), TextError>(e),
            None => Ok(()),
        },
{
    let ts = &op.tokens;
    let name = op.op.as_str();
    if crate::parser::str_eq(name, "Tf") {
        match number_at_exec(ts, 1) {
            Some(n) => {
                state.set_font_size(n);
                Ok(())
            },
            None => Err(TextError::BadOperand),
        }
    } else if crate::parser::str_eq(name, "Tm") {
        match (number_at_exec(ts, 4), number_at_exec(ts, 5)) {
            (Some(e), Some(f)) => {
                state.set_pos(e, f);
                Ok(())
            },
            _ => Err(TextError::BadOperand),
        }
    } else if crate::parser::str_eq(name, "Td") {
        match (number_at_exec(ts, 0), number_at_exec(ts, 1)) {
            (Some(dx), Some(dy)) => {
                let (x, y) = state.get_pos();
                match (x.checked_add(dx), y.checked_add(dy)) {
                    (Some(x2), Some(y2)) => {
                        state.set_pos(x2, y2);
                        Ok(())
                    },
                    _ => Err(TextError::Overflow),
                }
            },
            _ => Err(TextError::BadOperand),
        }
    } else if crate::parser::str_eq(name, "TJ") {
        match tj_exec(state, ts, babel) {
            Some(e) => Err(e),
            None => Ok(()),
        }
    } else {
        Ok(())
    }
}


/// The runs of the text objects of `ops`: from each `BT` a fresh state
/// takes the operations up to the next `ET` (or the end), whose runs are
/// then handed out; `cur` is the text object open, `out` the runs so far.
pub open spec fn layout(ops: Seq<OperationModel>, map: Map<u16, char>, cur: Option<TextModel>, out: Seq<RunModel>) -> Result<Seq<RunModel>, TextError>
    decreases ops.len(),
{
    if ops.len() == 0 {
        match cur {
            Some(st) => Ok(out + st.runs),
            None => Ok(out),
        }
    } else {
        let op = ops[0];
        let rest = ops.drop_first();
        match cur {
            None => if op.op == "BT"@ {
                layout(rest, map, Some(fresh_text()), out)
            } else {
                layout(rest, map, None, out)
            },
            Some(st) => if op.op == "ET"@ {
                layout(rest, map, None, out + st.runs)
            } else {
                let (s2, e) = apply_op(st, op, map);
                match e {
                    Some(e) => Err(e),
                    None => layout(rest, map, Some(s2), out),
                }
            },
        }
    }
}

pub open spec fn text_runs_spec(ops: Seq<OperationModel>, map: Map<u16, char>) -> Result<Seq<RunModel>, TextError> {
    layout(ops, map, None, Seq::empty())
}

fn reversed<T>(v: Vec<T>) -> (r: Vec<T>)
    ensures
        r@ == v@.reverse(),
{
    let ghost v0 = v@;
    let mut rest = v;
    let mut out: Vec<T> = Vec::new();
    while rest.len() > 0
        invariant
            v0 == rest@ + out@.reverse(),
        decreases rest@.len(),
    {
        let ghost br = rest@;
        let ghost bo = out@;
        let x = rest.pop().unwrap();
        assert(br =~= rest@.push(x));
        out.push(x);
        assert(out@.reverse() =~= seq![x] + bo.reverse());
        assert(v0 =~= rest@ + out@.reverse());
    }
    assert(v0 =~= out@.reverse());
    assert(out@ =~= v0.reverse());
    out
}

fn append_runs(out: &mut Vec<TextPaintingOperation>, runs: Vec<TextPaintingOperation>)
    ensures
        runs_view(final(out)@) == runs_view(old(out)@) + runs_view(runs@),
{
    let ghost r0 = runs_view(out@);
    let mut rev = reversed(runs);
    let ghost rv = runs_view(rev@.reverse());
    assert(rv =~= runs_view(runs@)) by {
        assert(rev@.reverse() =~= runs@);
    }
    while rev.len() > 0
        invariant
            runs_view(out@) + runs_view(rev@.reverse()) == r0 + rv,
        decreases rev@.len(),
    {
        let ghost br = rev@;
        let ghost bo = runs_view(out@);
        let x = rev.pop().unwrap();
        assert(br =~= rev@.push(x));
        assert(br.reverse() =~= seq![x] + rev@.reverse());
        let ghost xv = x@;
        out.push(x);
        assert(runs_view(out@) =~= bo.push(xv));
        assert(runs_view(br.reverse()) =~= seq![xv] + runs_view(rev@.reverse()));
        assert(runs_view(out@) + runs_view(rev@.reverse()) =~= bo + runs_view(br.reverse()));
    }
    assert(runs_view(rev@.reverse()) =~= Seq::<RunModel>::empty());
    assert(runs_view(out@) =~= r0 + rv);
}

/// The runs of every text object (`BT` ... `ET`) among `ops`, in order.
pub fn text_runs(ops: Vec<Operation>, babel: &HashMap<u16, char>) -> (r: Result<Vec<TextPaintingOperation>, TextError>)
    ensures
        match r {
            Ok(v) => text_runs_spec(crate::postscript::parser::operations_view(ops@), babel@) == Ok::<Seq<RunModel>, TextError>(runs_view(v@)),
            Err(e) => text_runs_spec(crate::postscript::parser::operations_view(ops@), babel@) == Err::<Seq<RunModel>, TextError>(e),
        },
{
    let ghost all = crate::postscript::parser::operations_view(ops@);
    let mut rev = reversed(ops);
    let mut cur: Option<TextState> = None;
    let mut out: Vec<TextPaintingOperation> = Vec::new();
    assert(runs_view(out@) =~= Seq::<RunModel>::empty());
    assert(crate::postscript::parser::operations_view(rev@.reverse()) =~= all) by {
        assert(rev@.reverse() =~= ops@);
    }
    loop
        invariant
            layout(crate::postscript::parser::operations_view(rev@.reverse()), babel@, match cur {
                Some(st) => Some(st@),
                None => None,
            }, runs_view(out@)) == text_runs_spec(all, babel@),
            all == crate::postscript::parser::operations_view(ops@),
        decreases rev@.len(),
    {
        if rev.len() == 0 {
            assert(crate::postscript::parser::operations_view(rev@.reverse()) =~= Seq::<OperationModel>::empty());
            match cur {
                Some(mut st) => {
                    let runs = st.drain();
                    append_runs(&mut out, runs);
                },
                None => {},
            }
            return Ok(out);
        }
        let ghost br = rev@;
        let op = rev.pop().unwrap();
        assert(br =~= rev@.push(op));
        assert(br.reverse() =~= seq![op] + rev@.reverse());
        let ghost opsv = crate::postscript::parser::operations_view(br.reverse());
        assert(opsv[0] == op@);
        assert(opsv.drop_first() =~= crate::postscript::parser::operations_view(rev@.reverse()));
        let is_bt = crate::parser::str_eq(op.op.as_str(), "BT");
        let is_et = crate::parser::str_eq(op.op.as_str(), "ET");
        match cur {
            None => {
                if is_bt {
                    cur = Some(TextState::new());
                }
            },
            Some(mut st) => {
                if is_et {
                    let runs = st.drain();
                    append_runs(&mut out, runs);
                    cur = None;
                } else {
                    match handle_text_operation(op, &mut st, babel) {
                        Ok(()) => {
                            cur = Some(st);
                        },
                        Err(e) => {
                            return Err(e);
                        },
                    }
                }
            },
        }
    }
}

} // verus!
