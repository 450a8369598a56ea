use vstd::prelude::*;

verus! {

/// An exact decimal number: `mantissa / 10^scale`.
///
/// Numbers that come out of the lexer or out of arithmetic are kept in
/// canonical form (no trailing zero digit after the point), so that two
/// numbers are equal exactly when their fields are equal.
#[derive(Clone, Copy, Debug, PartialEq, Eq, Structural)]
pub struct Decimal {
    pub mantissa: i128,
    pub scale: u32,
}

pub open spec fn pow10(k: nat) -> int
    decreases k,
{
    if k == 0 {
        1
    } else {
        10 * pow10((k - 1) as nat)
    }
}

pub open spec fn fits_i128(x: int) -> bool {
    i128::MIN <= x <= i128::MAX
}

/// Removes trailing zero digits after the point.
pub open spec fn normalize(m: int, s: nat) -> (int, nat)
    decreases s,
{
    if s > 0 && m % 10 == 0 {
        normalize(m / 10, (s - 1) as nat)
    } else {
        (m, s)
    }
}

pub open spec fn canonical(d: Decimal) -> bool {
    d.scale == 0 || d.mantissa % 10 != 0
}

/// The decimal `m / 10^s` in canonical form.
pub open spec fn make(m: int, s: nat) -> Decimal {
    Decimal { mantissa: normalize(m, s).0 as i128, scale: normalize(m, s).1 as u32 }
}

pub open spec fn from_int_spec(n: int) -> Decimal {
    Decimal { mantissa: n as i128, scale: 0 }
}

/// Bounded exact addition: `None` where an aligned operand or the sum leaves `i128`.
pub open spec fn add_spec(a: Decimal, b: Decimal) -> Option<Decimal> {
    let s: nat = if a.scale >= b.scale { a.scale as nat } else { b.scale as nat };
    let pa = pow10((s - a.scale) as nat);
    let pb = pow10((s - b.scale) as nat);
    let x = a.mantissa * pa;
    let y = b.mantissa * pb;
    if fits_i128(pa) && fits_i128(pb) && fits_i128(x) && fits_i128(y) && fits_i128(x + y) {
        Some(make(x + y, s))
    } else {
        None
    }
}

/// Bounded exact subtraction, as `add_spec`.
pub open spec fn sub_spec(a: Decimal, b: Decimal) -> Option<Decimal> {
    let s: nat = if a.scale >= b.scale { a.scale as nat } else { b.scale as nat };
    let pa = pow10((s - a.scale) as nat);
    let pb = pow10((s - b.scale) as nat);
    let x = a.mantissa * pa;
    let y = b.mantissa * pb;
    if fits_i128(pa) && fits_i128(pb) && fits_i128(x) && fits_i128(y) && fits_i128(x - y) {
        Some(make(x - y, s))
    } else {
        None
    }
}

/// Bounded exact multiplication: `None` where the product leaves `i128`
/// or the scale leaves `u32`.
pub open spec fn mul_spec(a: Decimal, b: Decimal) -> Option<Decimal> {
    let m = a.mantissa * b.mantissa;
    let s = a.scale + b.scale;
    if fits_i128(m) && s <= u32::MAX {
        Some(make(m, s as nat))
    } else {
        None
    }
}

proof fn lemma_normalize_bounds(m: int, s: nat)
    ensures
        normalize(m, s).1 <= s,
        fits_i128(m) ==> fits_i128(normalize(m, s).0),
        canonical(Decimal { mantissa: normalize(m, s).0 as i128, scale: normalize(m, s).1 as u32 })
            || !fits_i128(m) || s > u32::MAX,
    decreases s,
{
    if s > 0 && m % 10 == 0 {
        lemma_normalize_bounds(m / 10, (s - 1) as nat);
    }
}

proof fn lemma_pow10_positive(k: nat)
    ensures
        pow10(k) >= 1,
    decreases k,
{
    if k > 0 {
        lemma_pow10_positive((k - 1) as nat);
    }
}

/// `10^k` when it fits in an `i128`.
fn checked_pow10(k: u32) -> (r: Option<i128>)
    ensures
        r matches Some(p) ==> p == pow10(k as nat),
        r is None <==> !fits_i128(pow10(k as nat)),
{
    let mut p: i128 = 1;
    let mut i: u32 = 0;
    while i < k
        invariant
            i <= k,
            p == pow10(i as nat),
        decreases k - i,
    {
        proof {
            lemma_pow10_positive(i as nat);
            lemma_pow10_mono(i as nat, k as nat);
        }
        match p.checked_mul(10) {
            Some(q) => {
                p = q;
            },
            None => {
                proof {
                    lemma_pow10_mono((i + 1) as nat, k as nat);
                }
                return None;
            },
        }
        i = i + 1;
    }
    Some(p)
}

proof fn lemma_pow10_mono(i: nat, k: nat)
    requires
        i <= k,
    ensures
        pow10(i) <= pow10(k),
    decreases k - i,
{
    if i < k {
        lemma_pow10_mono(i, (k - 1) as nat);
        lemma_pow10_positive((k - 1) as nat);
    }
}

fn normalize_exec(m0: i128, s0: u32) -> (r: Decimal)
    ensures
        r == make(m0 as int, s0 as nat),
        canonical(r),
{
    let mut m = m0;
    let mut s = s0;
    while s > 0 && m % 10 == 0
        invariant
            normalize(m as int, s as nat) == normalize(m0 as int, s0 as nat),
        decreases s,
    {
        m = m / 10;
        s = s - 1;
    }
    proof {
        lemma_normalize_bounds(m as int, s as nat);
    }
    Decimal { mantissa: m, scale: s }
}

impl Decimal {
    /// The number `mantissa / 10^scale`, in canonical form.
    pub fn new(mantissa: i128, scale: u32) -> (r: Decimal)
        ensures
            r == make(mantissa as int, scale as nat),
            canonical(r),
    {
        normalize_exec(mantissa, scale)
    }

    /// The integer `n`.
    pub fn from_usize(n: usize) -> (r: Decimal)
        ensures
            r == from_int_spec(n as int),
            canonical(r),
    {
        Decimal { mantissa: n as i128, scale: 0 }
    }

    pub fn checked_add(self, other: Decimal) -> (r: Option<Decimal>)
        ensures
            r == add_spec(self, other),
    {
        let s = if self.scale >= other.scale { self.scale } else { other.scale };
        let pa = checked_pow10(s - self.scale);
        let pb = checked_pow10(s - other.scale);
        match (pa, pb) {
            (Some(pa), Some(pb)) => {
                let x = self.mantissa.checked_mul(pa);
                let y = other.mantissa.checked_mul(pb);
                match (x, y) {
                    (Some(x), Some(y)) => match x.checked_add(y) {
                        Some(z) => Some(normalize_exec(z, s)),
                        None => None,
                    },
                    _ => None,
                }
            },
            _ => None,
        }
    }

    pub fn checked_sub(self, other: Decimal) -> (r: Option<Decimal>)
        ensures
            r == sub_spec(self, other),
    {
        let s = if self.scale >= other.scale { self.scale } else { other.scale };
        let pa = checked_pow10(s - self.scale);
        let pb = checked_pow10(s - other.scale);
        match (pa, pb) {
            (Some(pa), Some(pb)) => {
                let x = self.mantissa.checked_mul(pa);
                let y = other.mantissa.checked_mul(pb);
                match (x, y) {
                    (Some(x), Some(y)) => match x.checked_sub(y) {
                        Some(z) => Some(normalize_exec(z, s)),
                        None => None,
                    },
                    _ => None,
                }
            },
            _ => None,
        }
    }

    pub fn checked_mul(self, other: Decimal) -> (r: Option<Decimal>)
        ensures
            r == mul_spec(self, other),
    {
        match (self.mantissa.checked_mul(other.mantissa), self.scale.checked_add(other.scale)) {
            (Some(m), Some(s)) => Some(normalize_exec(m, s)),
            _ => None,
        }
    }
}

} // verus!
