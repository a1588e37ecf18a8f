//! Integer 2D affine transforms.
//!
//! A `Matrix` maps a point `(x, y)` to `(xx*x + xy*y + x0, yx*x + yy*y + y0)`.
//! Composition wraps modulo the width of `i64`, so it is total; the entries a
//! document supplies are far below that range.

use vstd::prelude::*;
use crate::error::ParseError;

verus! {

/// A 2D affine transform with integer entries.
#[derive(Clone, Copy, Debug, PartialEq, Eq, Structural)]
pub struct Matrix {
    pub xx: i64,
    pub yx: i64,
    pub xy: i64,
    pub yy: i64,
    pub x0: i64,
    pub y0: i64,
}

/// A product of two entries, wrapped into `i64`.
pub open spec fn spec_mul_wrap(a: i64, b: i64) -> i64 {
    ((a as int) * (b as int)) as i64
}

/// A sum of two entries, wrapped into `i64`.
pub open spec fn spec_add_wrap(a: i64, b: i64) -> i64 {
    ((a as int) + (b as int)) as i64
}

/// The transform that applies `b` first and then `a`: the matrix product
/// `a * b`, entry by entry, each entry wrapped into `i64`.
pub open spec fn spec_multiply(a: Matrix, b: Matrix) -> Matrix {
    Matrix {
        xx: spec_add_wrap(spec_mul_wrap(a.xx, b.xx), spec_mul_wrap(a.xy, b.yx)),
        yx: spec_add_wrap(spec_mul_wrap(a.yx, b.xx), spec_mul_wrap(a.yy, b.yx)),
        xy: spec_add_wrap(spec_mul_wrap(a.xx, b.xy), spec_mul_wrap(a.xy, b.yy)),
        yy: spec_add_wrap(spec_mul_wrap(a.yx, b.xy), spec_mul_wrap(a.yy, b.yy)),
        x0: spec_add_wrap(
            spec_add_wrap(spec_mul_wrap(a.xx, b.x0), spec_mul_wrap(a.xy, b.y0)),
            a.x0,
        ),
        y0: spec_add_wrap(
            spec_add_wrap(spec_mul_wrap(a.yx, b.x0), spec_mul_wrap(a.yy, b.y0)),
            a.y0,
        ),
    }
}

proof fn lemma_i64_product_fits_i128(a: int, b: int)
    by (nonlinear_arith)
    requires
        -0x8000_0000_0000_0000 <= a <= 0x7fff_ffff_ffff_ffff,
        -0x8000_0000_0000_0000 <= b <= 0x7fff_ffff_ffff_ffff,
    ensures
        -0x4000_0000_0000_0000_0000_0000_0000_0000 <= a * b
            <= 0x4000_0000_0000_0000_0000_0000_0000_0000,
{
}

fn mul_wrap(a: i64, b: i64) -> (r: i64)
    ensures
        r == spec_mul_wrap(a, b),
{
    proof {
        lemma_i64_product_fits_i128(a as int, b as int);
    }
    #[verifier::truncate] (((a as i128) * (b as i128)) as i64)
}

fn add_wrap(a: i64, b: i64) -> (r: i64)
    ensures
        r == spec_add_wrap(a, b),
{
    #[verifier::truncate] (((a as i128) + (b as i128)) as i64)
}

impl Matrix {
    pub open spec fn spec_identity() -> Matrix {
        Matrix { xx: 1, yx: 0, xy: 0, yy: 1, x0: 0, y0: 0 }
    }

    /// The identity transform.
    pub fn identity() -> (m: Matrix)
        ensures
            m == Matrix::spec_identity(),
    {
        Matrix { xx: 1, yx: 0, xy: 0, yy: 1, x0: 0, y0: 0 }
    }

    /// The transform that applies `other` first and then `self`.
    pub fn multiply(&self, other: &Matrix) -> (r: Matrix)
        ensures
            r == spec_multiply(*self, *other),
    {
        Matrix {
            xx: add_wrap(mul_wrap(self.xx, other.xx), mul_wrap(self.xy, other.yx)),
            yx: add_wrap(mul_wrap(self.yx, other.xx), mul_wrap(self.yy, other.yx)),
            xy: add_wrap(mul_wrap(self.xx, other.xy), mul_wrap(self.xy, other.yy)),
            yy: add_wrap(mul_wrap(self.yx, other.xy), mul_wrap(self.yy, other.yy)),
            x0: add_wrap(
                add_wrap(mul_wrap(self.xx, other.x0), mul_wrap(self.xy, other.y0)),
                self.x0,
            ),
            y0: add_wrap(
                add_wrap(mul_wrap(self.yx, other.x0), mul_wrap(self.yy, other.y0)),
                self.y0,
            ),
        }
    }
}

/// An ASCII decimal digit.
pub open spec fn is_digit(b: u8) -> bool {
    48 <= b <= 57
}

pub open spec fn all_digits(s: Seq<u8>) -> bool {
    forall|i: int| 0 <= i < s.len() ==> is_digit(#[trigger] s[i])
}

/// The value of a digit string, most significant digit first.
pub open spec fn digits_val(s: Seq<u8>) -> int
    decreases s.len(),
{
    if s.len() == 0 {
        0
    } else {
        digits_val(s.drop_last()) * 10 + (s.last() - 48)
    }
}

/// A signed decimal numeral: an optional minus sign, then one to eighteen
/// digits.  The digit limit keeps every accepted value well inside `i64`.
pub open spec fn valid_numeral(s: Seq<u8>) -> bool {
    if s.len() > 0 && s[0] == 45 {
        2 <= s.len() <= 19 && all_digits(s.subrange(1, s.len() as int))
    } else {
        1 <= s.len() <= 18 && all_digits(s)
    }
}

pub open spec fn numeral_val(s: Seq<u8>) -> int {
    if s.len() > 0 && s[0] == 45 {
        -digits_val(s.subrange(1, s.len() as int))
    } else {
        digits_val(s)
    }
}

/// The fields a raw value splits into at every space byte.
pub open spec fn spec_split(s: Seq<u8>) -> Seq<Seq<u8>>
    decreases s.len(),
{
    if s.len() == 0 {
        seq![Seq::empty()]
    } else if s[0] == 32 {
        seq![Seq::<u8>::empty()] + spec_split(s.subrange(1, s.len() as int))
    } else {
        let rest = spec_split(s.subrange(1, s.len() as int));
        rest.update(0, seq![s[0]] + rest[0])
    }
}

pub proof fn lemma_split_nonempty(s: Seq<u8>)
    ensures
        spec_split(s).len() >= 1,
    decreases s.len(),
{
    if s.len() != 0 {
        lemma_split_nonempty(s.subrange(1, s.len() as int));
    }
}

/// What a raw transform value means: six space-separated numerals, in the
/// order xx, yx, xy, yy, x0, y0; or nothing, when the value is malformed.
pub open spec fn spec_parse(s: Seq<u8>) -> Option<Matrix> {
    let toks = spec_split(s);
    if toks.len() == 6 && (forall|i: int| 0 <= i < 6 ==> valid_numeral(#[trigger] toks[i])) {
        Some(Matrix {
            xx: numeral_val(toks[0]) as i64,
            yx: numeral_val(toks[1]) as i64,
            xy: numeral_val(toks[2]) as i64,
            yy: numeral_val(toks[3]) as i64,
            x0: numeral_val(toks[4]) as i64,
            y0: numeral_val(toks[5]) as i64,
        })
    } else {
        None
    }
}

spec fn pow10(n: nat) -> int
    decreases n,
{
    if n == 0 {
        1
    } else {
        10 * pow10((n - 1) as nat)
    }
}

proof fn lemma_pow10_pos(n: nat)
    ensures
        pow10(n) >= 1,
    decreases n,
{
    if n > 0 {
        lemma_pow10_pos((n - 1) as nat);
    }
}

proof fn lemma_pow10_mono(m: nat, n: nat)
    requires
        m <= n,
    ensures
        pow10(m) <= pow10(n),
        pow10(m) >= 1,
    decreases n,
{
    lemma_pow10_pos(m);
    if m < n {
        lemma_pow10_mono(m, (n - 1) as nat);
        lemma_pow10_pos((n - 1) as nat);
    }
}

proof fn lemma_digits_val_bound(s: Seq<u8>)
    requires
        all_digits(s),
    ensures
        0 <= digits_val(s) < pow10(s.len()),
    decreases s.len(),
{
    if s.len() > 0 {
        assert(all_digits(s.drop_last()));
        lemma_digits_val_bound(s.drop_last());
    }
}

proof fn lemma_pow10_18()
    ensures
        pow10(17) == 0x16345785d8a0000,
        pow10(18) == 0xde0b6b3a7640000,
{
    reveal_with_fuel(pow10, 19);
}

/// Parses one field as a signed decimal numeral.
fn parse_numeral(tok: &[u8]) -> (r: Result<i64, ParseError>)
    ensures
        r is Ok <==> valid_numeral(tok@),
        r is Ok ==> r->Ok_0 == numeral_val(tok@),
{
    let n: usize = tok.len();
    let neg: bool = n > 0 && tok[0] == 45;
    let start: usize = if neg { 1 } else { 0 };
    if n - start < 1 || n - start > 18 {
        return Err(ParseError::new("expected one to eighteen decimal digits"));
    }
    let mut acc: u64 = 0;
    let mut i: usize = start;
    proof {
        assert(tok@.subrange(start as int, start as int) =~= Seq::<u8>::empty());
    }
    while i < n
        invariant
            start <= i <= n,
            n == tok@.len(),
            neg ==> start == 1 && n >= 1 && tok@[0] == 45,
            !neg ==> start == 0 && tok@[0] != 45,
            1 <= n - start <= 18,
            all_digits(tok@.subrange(start as int, i as int)),
            acc == digits_val(tok@.subrange(start as int, i as int)),
            acc < pow10((i - start) as nat),
        decreases n - i,
    {
        let b: u8 = tok[i];
        if b < 48 || b > 57 {
            proof {
                assert(!is_digit(tok@.subrange(start as int, n as int)[i - start]));
                assert(!all_digits(tok@.subrange(start as int, n as int)));
                if !neg {
                    assert(tok@.subrange(0, n as int) =~= tok@);
                }
            }
            return Err(ParseError::new("expected a decimal digit"));
        }
        proof {
            lemma_pow10_mono(((i - start) + 1) as nat, 18);
            lemma_pow10_18();
            assert(tok@.subrange(start as int, i + 1).drop_last() =~= tok@.subrange(
                start as int,
                i as int,
            ));
            assert(tok@.subrange(start as int, i + 1).last() == tok@[i as int]);
        }
        acc = acc * 10 + ((b - 48) as u64);
        i = i + 1;
    }
    proof {
        assert(tok@.subrange(start as int, n as int) =~= tok@.subrange(start as int, i as int));
        if !neg {
            assert(tok@.subrange(0, n as int) =~= tok@);
        }
        lemma_pow10_mono((n - start) as nat, 18);
        lemma_pow10_18();
    }
    if neg {
        Ok(-(acc as i64))
    } else {
        Ok(acc as i64)
    }
}

/// The views of a sequence of byte vectors.
pub open spec fn seq_views(s: Seq<Vec<u8>>) -> Seq<Seq<u8>> {
    Seq::new(s.len(), |i: int| s[i]@)
}

/// Splits `v`, from `from` on, at every space byte.
fn split_from(v: &[u8], from: usize) -> (r: Vec<Vec<u8>>)
    requires
        from <= v@.len(),
    ensures
        seq_views(r@) == spec_split(v@.subrange(from as int, v@.len() as int)),
    decreases v@.len() - from,
{
    let n: usize = v.len();
    if from == n {
        let mut r: Vec<Vec<u8>> = Vec::new();
        r.push(Vec::new());
        proof {
            assert(v@.subrange(from as int, n as int) =~= Seq::<u8>::empty());
            assert(seq_views(r@) =~= seq![Seq::<u8>::empty()]);
        }
        r
    } else if v[from] == 32 {
        let mut r = split_from(v, from + 1);
        r.insert(0, Vec::new());
        proof {
            let s = v@.subrange(from as int, n as int);
            assert(s.subrange(1, s.len() as int) =~= v@.subrange(from + 1, n as int));
            assert(seq_views(r@) =~= seq![Seq::<u8>::empty()] + spec_split(
                v@.subrange(from + 1, n as int),
            ));
        }
        r
    } else {
        let mut r = split_from(v, from + 1);
        proof {
            lemma_split_nonempty(v@.subrange(from + 1, n as int));
        }
        let b: u8 = v[from];
        r[0].insert(0, b);
        proof {
            let s = v@.subrange(from as int, n as int);
            let rest = spec_split(v@.subrange(from + 1, n as int));
            assert(s.subrange(1, s.len() as int) =~= v@.subrange(from + 1, n as int));
            assert(r@[0]@ =~= seq![s[0]] + rest[0]);
            assert(seq_views(r@) =~= rest.update(0, seq![s[0]] + rest[0]));
        }
        r
    }
}

impl Matrix {
    /// Parses a transform attribute's raw value: six space-separated decimal
    /// numerals giving xx, yx, xy, yy, x0 and y0.
    pub fn parse(value: &[u8]) -> (r: Result<Matrix, ParseError>)
        ensures
            r is Ok <==> spec_parse(value@) is Some,
            r is Ok ==> r->Ok_0 == spec_parse(value@)->0,
    {
        proof {
            assert(value@.subrange(0, value@.len() as int) =~= value@);
        }
        let toks = split_from(value, 0);
        if toks.len() != 6 {
            return Err(ParseError::new("expected six space-separated integers"));
        }
        proof {
            assert(forall|i: int| 0 <= i < 6 ==> spec_split(value@)[i] == #[trigger] toks@[i]@);
        }
        let xx = match Self::parse_entry(toks[0].as_slice()) {
            Ok(x) => x,
            Err(e) => return Err(e),
        };
        let yx = match Self::parse_entry(toks[1].as_slice()) {
            Ok(x) => x,
            Err(e) => return Err(e),
        };
        let xy = match Self::parse_entry(toks[2].as_slice()) {
            Ok(x) => x,
            Err(e) => return Err(e),
        };
        let yy = match Self::parse_entry(toks[3].as_slice()) {
            Ok(x) => x,
            Err(e) => return Err(e),
        };
        let x0 = match Self::parse_entry(toks[4].as_slice()) {
            Ok(x) => x,
            Err(e) => return Err(e),
        };
        let y0 = match Self::parse_entry(toks[5].as_slice()) {
            Ok(x) => x,
            Err(e) => return Err(e),
        };
        Ok(Matrix { xx, yx, xy, yy, x0, y0 })
    }

    /// Parses one matrix entry; the digit limit in the numeral grammar keeps
    /// the value inside `i64`, so the entry equals the numeral exactly.
    fn parse_entry(tok: &[u8]) -> (r: Result<i64, ParseError>)
        ensures
            r is Ok <==> valid_numeral(tok@),
            r is Ok ==> r->Ok_0 == numeral_val(tok@) && r->Ok_0 == numeral_val(tok@) as i64,
    {
        let r = match parse_numeral(tok) {
            Ok(x) => x,
            Err(e) => return Err(e),
        };
        proof {
            if tok@.len() > 0 && tok@[0] == 45 {
                lemma_digits_val_bound(tok@.subrange(1, tok@.len() as int));
                lemma_pow10_mono((tok@.len() - 1) as nat, 18);
            } else {
                lemma_digits_val_bound(tok@);
                lemma_pow10_mono(tok@.len() as nat, 18);
            }
            lemma_pow10_18();
        }
        Ok(r)
    }
}

} // verus!
