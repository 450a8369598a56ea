use crate::lexer::{
    digits_value, digits_value_exec, hex_val, hex_value, run_end, run_end_exec, word_is, word_is_exec,
    RunKind,
};
use vstd::prelude::*;

verus! {

broadcast use {vstd::seq_lib::group_seq_properties, vstd::std_specs::vec::group_vec_axioms};

/// Why a code map's `bfchar` block could not be read.
#[derive(Clone, Copy, Debug, PartialEq, Eq, Structural)]
pub enum CMapError {
    /// The block's first field is not an entry count.
    BadCount,
    /// The block ends before its count of entries.
    MissingEntries,
    /// An entry line is not `<XXXX> <YYYY>`.
    BadEntry,
    /// An entry's destination is not a Unicode scalar value.
    BadChar,
}

/// The lines of `b`, split at each `\n`.
pub open spec fn lines_of(b: Seq<u8>) -> Seq<Seq<u8>>
    decreases b.len(),
{
    let e = run_end(b, 0, RunKind::NotNewline);
    if e >= b.len() {
        seq![b]
    } else {
        seq![b.subrange(0, e as int)] + lines_of(b.subrange(e + 1 as int, b.len() as int))
    }
}

/// The lines of every stream, one stream after the other.
pub open spec fn all_lines(streams: Seq<Seq<u8>>) -> Seq<Seq<u8>>
    decreases streams.len(),
{
    if streams.len() == 0 {
        Seq::empty()
    } else {
        all_lines(streams.drop_last()) + lines_of(streams.last())
    }
}

pub open spec fn opens_block(l: Seq<u8>) -> bool {
    l.len() >= 12 && word_is(l, l.len() - 12, l.len() as int, " beginbfchar"@)
}

/// The index of the first line at or after `i` that opens a `bfchar`
/// block, or -1.
pub open spec fn block_start(lines: Seq<Seq<u8>>, i: nat) -> int
    decreases lines.len() - i,
{
    if i >= lines.len() {
        -1
    } else if opens_block(lines[i as int]) {
        i as int
    } else {
        block_start(lines, i + 1)
    }
}

/// The entry count that starts a block's first line.
pub open spec fn block_count(l: Seq<u8>) -> Option<usize> {
    let d = run_end(l, 0, RunKind::Digit);
    if 0 < d < l.len() && l[d as int] == 32 && digits_value(l.subrange(0, d as int)) <= usize::MAX {
        Some(digits_value(l.subrange(0, d as int)) as usize)
    } else {
        None
    }
}

/// An entry line `<XXXX> <YYYY>`: a code of at most four hex digits and a
/// destination of at most eight.
pub open spec fn parse_entry(l: Seq<u8>) -> Option<(u16, u32)> {
    let a = run_end(l, 1, RunKind::Hex);
    let b = run_end(l, a + 3, RunKind::Hex);
    if l.len() >= 1 && l[0] == 60 && 1 < a <= 5 && a + 3 < l.len() && l[a as int] == 62
        && l[a + 1 as int] == 32 && l[a + 2 as int] == 60 && a + 3 < b <= a + 11 && b + 1
        == l.len() && l[b as int] == 62 {
        Some(
            (
                hex_value(l.subrange(1, a as int)) as u16,
                hex_value(l.subrange(a + 3 as int, b as int)) as u32,
            ),
        )
    } else {
        None
    }
}

pub open spec fn is_scalar(v: u32) -> bool {
    v < 0xD800 || (0xE000 <= v && v < 0x110000)
}

/// One entry line: its code and the value of its char.
pub open spec fn entry_spec(l: Seq<u8>) -> Result<(u16, u32), CMapError> {
    match parse_entry(l) {
        None => Err(CMapError::BadEntry),
        Some((c, v)) => if is_scalar(v) {
            Ok((c, v))
        } else {
            Err(CMapError::BadChar)
        },
    }
}

/// The entries of the `n` lines from `i` on; the first bad line decides
/// the error.
pub open spec fn block_entries(lines: Seq<Seq<u8>>, i: int, n: nat) -> Result<Seq<(u16, u32)>, CMapError>
    decreases n,
{
    if n == 0 {
        Ok(Seq::empty())
    } else {
        match block_entries(lines, i, (n - 1) as nat) {
            Ok(es) => match entry_spec(lines[i + n - 1]) {
                Ok(e) => Ok(es.push(e)),
                Err(e) => Err(e),
            },
            Err(e) => Err(e),
        }
    }
}

/// The entries of the first `bfchar` block among `lines` (none where
/// there is no block), as code and char value.
pub open spec fn bfchar_spec(lines: Seq<Seq<u8>>) -> Result<Seq<(u16, u32)>, CMapError> {
    let i = block_start(lines, 0);
    if i < 0 {
        Ok(Seq::empty())
    } else {
        match block_count(lines[i]) {
            None => Err(CMapError::BadCount),
            Some(n) => if i + 1 + n > lines.len() {
                Err(CMapError::MissingEntries)
            } else {
                block_entries(lines, i + 1, n as nat)
            },
        }
    }
}

/// Relies on `char::from_u32`: the char of a Unicode scalar value, `None`
/// for any other value.
#[verifier::external_body]
fn char_of(v: u32) -> (r: Option<char>)
    ensures
        match r {
            Some(c) => is_scalar(v) && c as u32 == v,
            None => !is_scalar(v),
        },
{
    char::from_u32(v)
}

fn lines_exec(b: &[u8], out: &mut Vec<Vec<u8>>)
    ensures
        bytes_lines_view(final(out)@) == bytes_lines_view(old(out)@) + lines_of(b@),
{
    let ghost o0 = bytes_lines_view(out@);
    let mut start: usize = 0;
    let mut line: Vec<u8> = Vec::new();
    let mut i: usize = 0;
    assert(b@.subrange(0, b@.len() as int) =~= b@);
    loop
        invariant
            start <= i <= b@.len(),
            line@ == b@.subrange(start as int, i as int),
            forall|j: int| start <= j < i ==> b@[j] != 10,
            o0 == bytes_lines_view(old(out)@),
            bytes_lines_view(out@) + lines_of(b@.subrange(start as int, b@.len() as int))
                == o0 + lines_of(b@),
        decreases b@.len() - i,
    {
        let ghost rest = b@.subrange(start as int, b@.len() as int);
        if i >= b.len() {
            proof {
                assert(forall|j: int| 0 <= j < rest.len() ==> crate::lexer::in_run(RunKind::NotNewline, #[trigger] rest[j]));
                lemma_run_all(rest, 0, RunKind::NotNewline);
            }
            let ghost before = bytes_lines_view(out@);
            let ghost lv = line@;
            out.push(line);
            assert(bytes_lines_view(out@) =~= before.push(lv));
            assert(lv =~= rest);
            assert(lines_of(rest) == seq![rest]);
            assert(before + seq![rest] =~= before.push(lv));
            return;
        }
        if b[i] == 10 {
            proof {
                lemma_run_stops(rest, 0, (i - start) as nat, RunKind::NotNewline);
                assert(rest.subrange(0, (i - start) as int) =~= line@);
                assert(rest.subrange(i - start + 1, rest.len() as int) =~= b@.subrange(i + 1, b@.len() as int));
            }
            let ghost before = bytes_lines_view(out@);
            let ghost lv = line@;
            out.push(line);
            assert(bytes_lines_view(out@) =~= before.push(lv));
            assert(before + (seq![lv] + lines_of(b@.subrange(i + 1, b@.len() as int))) =~= before.push(lv) + lines_of(b@.subrange(i + 1, b@.len() as int)));
            line = Vec::new();
            start = i + 1;
            i = i + 1;
            assert(line@ =~= b@.subrange(start as int, i as int));
        } else {
            line.push(b[i]);
            i = i + 1;
            assert(line@ =~= b@.subrange(start as int, i as int));
        }
    }
}

proof fn lemma_run_all(s: Seq<u8>, i: nat, k: RunKind)
    requires
        i <= s.len(),
        forall|j: int| i <= j < s.len() ==> crate::lexer::in_run(k, #[trigger] s[j]),
    ensures
        run_end(s, i, k) == s.len(),
    decreases s.len() - i,
{
    if i < s.len() {
        lemma_run_all(s, i + 1, k);
    }
}

proof fn lemma_run_stops(s: Seq<u8>, i: nat, e: nat, k: RunKind)
    requires
        i <= e < s.len(),
        forall|j: int| i <= j < e ==> crate::lexer::in_run(k, #[trigger] s[j]),
        !crate::lexer::in_run(k, s[e as int]),
    ensures
        run_end(s, i, k) == e,
    decreases e - i,
{
    if i < e {
        lemma_run_stops(s, i + 1, e, k);
    }
}

pub open spec fn bytes_lines_view(v: Seq<Vec<u8>>) -> Seq<Seq<u8>> {
    v.map_values(|l: Vec<u8>| l@)
}

pub open spec fn slices_view(v: Seq<&[u8]>) -> Seq<Seq<u8>> {
    v.map_values(|b: &[u8]| b@)
}

fn hex_value_exec(l: &Vec<u8>, a: usize, b: usize) -> (r: u32)
    requires
        a <= b <= l@.len(),
        b - a <= 8,
    ensures
        r == hex_value(l@.subrange(a as int, b as int)),
{
    let mut v: u32 = 0;
    let mut i = a;
    while i < b
        invariant
            a <= i <= b <= l@.len(),
            b - a <= 8,
            v == hex_value(l@.subrange(a as int, i as int)),
            v < pow16((i - a) as nat),
        decreases b - i,
    {
        let ghost pre = l@.subrange(a as int, i as int);
        assert(l@.subrange(a as int, i + 1).drop_last() =~= pre);
        let d = l[i];
        let h: u32 = if 48 <= d && d <= 57 {
            (d - 48) as u32
        } else if 65 <= d && d <= 70 {
            (d - 55) as u32
        } else if 97 <= d && d <= 102 {
            (d - 87) as u32
        } else {
            0
        };
        proof {
            lemma_pow16_bound((i - a + 1) as nat);
        }
        v = v * 16 + h;
        i = i + 1;
    }
    v
}

pub open spec fn pow16(k: nat) -> int
    decreases k,
{
    if k == 0 {
        1
    } else {
        16 * pow16((k - 1) as nat)
    }
}

proof fn lemma_pow16_mono(i: nat, k: nat)
    requires
        i <= k,
    ensures
        1 <= pow16(i) <= pow16(k),
    decreases k,
{
    if i < k {
        lemma_pow16_mono(i, (k - 1) as nat);
    } else if k > 0 {
        lemma_pow16_mono(0, (k - 1) as nat);
    }
}

proof fn lemma_pow16_bound(k: nat)
    requires
        k <= 8,
    ensures
        pow16(k) <= 0x1_0000_0000,
        k > 0 ==> pow16(k) == 16 * pow16((k - 1) as nat),
{
    reveal_with_fuel(pow16, 9);
    lemma_pow16_mono(k, 8);
}

fn parse_entry_exec(l: &Vec<u8>) -> (r: Option<(u16, u32)>)
    ensures
        r == parse_entry(l@),
{
    let len = l.len();
    if len < 1 || l[0] != 60 {
        return None;
    }
    let a = run_end_exec(l, 1, RunKind::Hex);
    if !(1 < a && a <= 5 && a + 3 < len && l[a] == 62 && l[a + 1] == 32 && l[a + 2] == 60) {
        return None;
    }
    let b = run_end_exec(l, a + 3, RunKind::Hex);
    if !(a + 3 < b && b <= a + 11 && b + 1 == len && l[b] == 62) {
        return None;
    }
    let left = hex_value_exec(l, 1, a);
    let right = hex_value_exec(l, a + 3, b);
    proof {
        lemma_hex_small(l@.subrange(1, a as int));
    }
    Some((left as u16, right))
}

proof fn lemma_hex_small(s: Seq<u8>)
    requires
        s.len() <= 4,
    ensures
        0 <= hex_value(s) < pow16(s.len()),
        pow16(s.len()) <= 0x10000,
    decreases s.len(),
{
    if s.len() > 0 {
        lemma_hex_small(s.drop_last());
    }
    reveal_with_fuel(pow16, 5);
    lemma_pow16_mono(s.len(), 4);
}

fn block_count_exec(l: &Vec<u8>) -> (r: Option<usize>)
    ensures
        r == block_count(l@),
{
    let d = run_end_exec(l, 0, RunKind::Digit);
    if !(0 < d && d < l.len() && l[d] == 32) {
        return None;
    }
    proof {
        crate::lexer::lemma_digits_value_nonneg(l@.subrange(0, d as int));
        assert(l@.subrange(0, d as int) + l@.subrange(d as int, d as int) =~= l@.subrange(0, d as int));
    }
    match digits_value_exec(l, 0, d, d, d) {
        Some(v) => {
            if v <= usize::MAX as i128 {
                Some(v as usize)
            } else {
                None
            }
        },
        None => None,
    }
}

fn find_block(lines: &Vec<Vec<u8>>) -> (r: usize)
    ensures
        r <= lines@.len(),
        r < lines@.len() ==> block_start(bytes_lines_view(lines@), 0) == r,
        r == lines@.len() ==> block_start(bytes_lines_view(lines@), 0) == -1,
{
    let ghost lv = bytes_lines_view(lines@);
    let mut i: usize = 0;
    while i < lines.len()
        invariant
            i <= lines@.len(),
            lv == bytes_lines_view(lines@),
            block_start(lv, 0) == block_start(lv, i as nat),
        decreases lines@.len() - i,
    {
        let l = &lines[i];
        assert(lv[i as int] == l@);
        let n = l.len();
        if n >= 12 && word_is_exec(l, n - 12, n, " beginbfchar") {
            return i;
        }
        i = i + 1;
    }
    i
}

/// Reads the first `bfchar` block of the given CMap streams: its entries,
/// in order, as code and char. No block gives no entries.
pub fn bfchar_entries(streams: &Vec<&[u8]>) -> (r: Result<Vec<(u16, char)>, CMapError>)
    ensures
        match bfchar_spec(all_lines(slices_view(streams@))) {
            Ok(es) => r matches Ok(v) && v@.len() == es.len() && forall|i: int|
                0 <= i < es.len() ==> v@[i].0 == es[i].0 && v@[i].1 as u32 == es[i].1,
            Err(e) => r == Err::<Vec<(u16, char)>, CMapError>(e),
        },
{
    let ghost sv = slices_view(streams@);
    let mut lines: Vec<Vec<u8>> = Vec::new();
    let mut s: usize = 0;
    assert(bytes_lines_view(lines@) =~= all_lines(sv.subrange(0, 0)));
    while s < streams.len()
        invariant
            s <= streams@.len(),
            sv == slices_view(streams@),
            bytes_lines_view(lines@) == all_lines(sv.subrange(0, s as int)),
        decreases streams@.len() - s,
    {
        assert(sv.subrange(0, s + 1).drop_last() =~= sv.subrange(0, s as int));
        lines_exec(streams[s], &mut lines);
        s = s + 1;
    }
    assert(sv.subrange(0, s as int) =~= sv);
    let ghost lv = bytes_lines_view(lines@);
    assert(lv == all_lines(slices_view(streams@)));
    let nlines = lines.len();
    let i = find_block(&lines);
    let mut out: Vec<(u16, char)> = Vec::new();
    if i >= nlines {
        return Ok(out);
    }
    let count = match block_count_exec(&lines[i]) {
        Some(n) => n,
        None => {
            return Err(CMapError::BadCount);
        },
    };
    if count > nlines - i - 1 {
        return Err(CMapError::MissingEntries);
    }
    let ghost first = (i + 1) as int;
    let mut k: usize = 0;
    let ghost mut es: Seq<(u16, u32)> = Seq::empty();
    while k < count
        invariant
            k <= count,
            first == i + 1,
            i + 1 + count <= nlines,
            nlines == lines@.len(),
            lv == bytes_lines_view(lines@),
            lv == all_lines(slices_view(streams@)),
            block_start(lv, 0) == i,
            block_count(lv[i as int]) == Some(count),
            block_entries(lv, first, k as nat) == Ok::<Seq<(u16, u32)>, CMapError>(es),
            out@.len() == es.len(),
            forall|j: int| 0 <= j < es.len() ==> out@[j].0 == es[j].0 && out@[j].1 as u32 == es[j].1,
        decreases count - k,
    {
        let entry = match parse_entry_exec(&lines[i + 1 + k]) {
            Some(e) => e,
            None => {
                proof {
                    lemma_block_entries_err(lv, first, (k + 1) as nat, count as nat, CMapError::BadEntry);
                }
                return Err(CMapError::BadEntry);
            },
        };
        let c = match char_of(entry.1) {
            Some(c) => c,
            None => {
                proof {
                    lemma_block_entries_err(lv, first, (k + 1) as nat, count as nat, CMapError::BadChar);
                }
                return Err(CMapError::BadChar);
            },
        };
        out.push((entry.0, c));
        proof {
            es = es.push(entry);
        }
        k = k + 1;
    }
    Ok(out)
}

proof fn lemma_block_entries_err(lines: Seq<Seq<u8>>, i: int, k: nat, n: nat, e: CMapError)
    requires
        k <= n,
        block_entries(lines, i, k) == Err::<Seq<(u16, u32)>, CMapError>(e),
    ensures
        block_entries(lines, i, n) == Err::<Seq<(u16, u32)>, CMapError>(e),
    decreases n - k,
{
    if k < n {
        lemma_block_entries_err(lines, i, k + 1, n, e);
    }
}

} // verus!
