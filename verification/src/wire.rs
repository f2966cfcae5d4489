//! The canonical byte-level wire format of the pipeline's messages.
//!
//! The workers exchange compact JSON documents with a fixed field order
//! and no interior whitespace.  Where the surrounding system describes
//! the readings and statistics as floating-point numbers, these
//! documents carry the same quantities as decimal integers in fixed-point
//! sensor units; the scale is the producing edge's choice and both paths
//! of the pipeline share it.  Builders produce exactly the canonical
//! bytes of a message value; parsers accept exactly the canonical bytes
//! and accept every canonical message, so anything accepted is the
//! encoding of the value returned, every well-formed message is taken,
//! and a malformed envelope is rejected with a `ParseError` instead of
//! crashing the worker.

use crate::errors::ParseError;
use crate::features::{sample_wf, samples_wf, FeatureVector, Sample, SAMPLE_BOUND};
use crate::label::{spec_label_name, Label};
use crate::stats::{SeriesStats, SERIES_CAP};
use vstd::arithmetic::div_mod::lemma_fundamental_div_mod;
use vstd::prelude::*;
use vstd::string::StringSliceAdditionalSpecFns;

verus! {

/// Splitting a byte range at an interior point splits its contents.
pub proof fn lemma_subrange_chain(b: Seq<u8>, i: int, j: int, k: int)
    requires
        0 <= i <= j <= k <= b.len(),
    ensures
        b.subrange(i, k) == b.subrange(i, j) + b.subrange(j, k),
{
    assert(b.subrange(i, k) =~= b.subrange(i, j) + b.subrange(j, k));
}

/// The decimal digits of a non-negative number, most significant first,
/// without leading zeros.
pub open spec fn digits_of(n: int) -> Seq<u8>
    recommends
        n >= 0,
    decreases n,
{
    if n < 10 {
        seq![(48 + n) as u8]
    } else {
        digits_of(n / 10).push((48 + n % 10) as u8)
    }
}

/// The decimal digits of a signed number: a minus sign, if negative,
/// then the digits of its magnitude.
pub open spec fn sdigits_of(v: int) -> Seq<u8> {
    if v < 0 {
        seq![45u8] + digits_of(-v)
    } else {
        digits_of(v)
    }
}

/// An ASCII decimal digit.
pub open spec fn is_digit(b: u8) -> bool {
    48 <= b <= 57
}

/// The bytes at `pos` are exactly the decimal run of `v`, and the run is
/// closed: the byte after it, if any, is not a digit.
pub open spec fn digits_at(b: Seq<u8>, pos: int, v: u64) -> bool {
    &&& 0 <= pos
    &&& pos + digits_of(v as int).len() <= b.len()
    &&& b.subrange(pos, pos + digits_of(v as int).len()) == digits_of(v as int)
    &&& (pos + digits_of(v as int).len() == b.len() || !is_digit(
        b[pos + digits_of(v as int).len()],
    ))
}

/// The bytes at `pos` are exactly the closed signed decimal run of `v`.
pub open spec fn sdigits_at(b: Seq<u8>, pos: int, v: i64) -> bool {
    &&& 0 <= pos
    &&& pos + sdigits_of(v as int).len() <= b.len()
    &&& b.subrange(pos, pos + sdigits_of(v as int).len()) == sdigits_of(v as int)
    &&& (pos + sdigits_of(v as int).len() == b.len() || !is_digit(
        b[pos + sdigits_of(v as int).len()],
    ))
}

/// Every byte of a decimal run is a digit, and a run is never empty.
proof fn lemma_digits_are_digits(n: int)
    requires
        n >= 0,
    ensures
        digits_of(n).len() >= 1,
        forall|i: int| 0 <= i < digits_of(n).len() ==> is_digit(#[trigger] digits_of(n)[i]),
    decreases n,
{
    if n >= 10 {
        lemma_digits_are_digits(n / 10);
    }
}

/// The leading digit of a positive number is never zero.
proof fn lemma_digits_leading_nonzero(n: int)
    requires
        n >= 1,
    ensures
        digits_of(n)[0] != 48,
    decreases n,
{
    if n >= 10 {
        lemma_digits_leading_nonzero(n / 10);
        lemma_digits_are_digits(n / 10);
        assert(digits_of(n)[0] == digits_of(n / 10)[0]);
    }
}

/// Equal decimal runs come from equal numbers.
proof fn lemma_digits_injective(a: int, b: int)
    requires
        a >= 0,
        b >= 0,
        digits_of(a) == digits_of(b),
    ensures
        a == b,
    decreases a,
{
    lemma_digits_are_digits(a);
    lemma_digits_are_digits(b);
    if a < 10 && b < 10 {
        assert(digits_of(a)[0] == (48 + a) as u8);
        assert(digits_of(b)[0] == (48 + b) as u8);
        assert(((48 + a) as u8) as int == 48 + a);
        assert(((48 + b) as u8) as int == 48 + b);
    } else if a < 10 {
        assert(digits_of(b).len() >= 2) by {
            lemma_digits_are_digits(b / 10);
        }
    } else if b < 10 {
        assert(digits_of(a).len() >= 2) by {
            lemma_digits_are_digits(a / 10);
        }
    } else {
        assert(digits_of(a).drop_last() == digits_of(a / 10));
        assert(digits_of(b).drop_last() == digits_of(b / 10));
        assert(digits_of(a).last() == digits_of(b).last());
        assert(a % 10 == b % 10) by {
            assert(0 <= a % 10 < 10);
            assert(0 <= b % 10 < 10);
            assert(digits_of(a).last() == (48 + a % 10) as u8);
            assert(digits_of(b).last() == (48 + b % 10) as u8);
            assert(((48 + a % 10) as u8) as int == 48 + a % 10);
            assert(((48 + b % 10) as u8) as int == 48 + b % 10);
        }
        lemma_digits_injective(a / 10, b / 10);
        lemma_fundamental_div_mod(a, 10);
        lemma_fundamental_div_mod(b, 10);
    }
}

/// A number whose decimal run extends another number's run by the digit
/// `e` is at least ten times the shorter number plus `e`.
proof fn lemma_digits_prefix_digit(a: int, e: int, b: int)
    requires
        a >= 0,
        b >= 0,
        0 <= e <= 9,
        digits_of(a).len() + 1 <= digits_of(b).len(),
        digits_of(b).take(digits_of(a).len() as int + 1) == digits_of(a).push((48 + e) as u8),
    ensures
        b >= 10 * a + e,
    decreases b,
{
    lemma_digits_are_digits(a);
    lemma_digits_are_digits(b);
    assert(b >= 10) by {
        if b < 10 {
            assert(digits_of(b).len() == 1);
        }
    }
    assert(digits_of(b) == digits_of(b / 10).push((48 + b % 10) as u8));
    if digits_of(a).len() + 1 == digits_of(b).len() {
        assert(digits_of(b).take(digits_of(a).len() as int + 1) =~= digits_of(b));
        assert(digits_of(b).drop_last() == digits_of(b / 10));
        assert(digits_of(a).push((48 + e) as u8).drop_last() =~= digits_of(a));
        assert(digits_of(a) == digits_of(b / 10));
        lemma_digits_injective(a, b / 10);
        assert(digits_of(b).last() == (48 + b % 10) as u8);
        assert(digits_of(a).push((48 + e) as u8).last() == (48 + e) as u8);
        assert(b % 10 == e) by {
            assert(0 <= b % 10 < 10);
            assert(((48 + b % 10) as u8) as int == 48 + b % 10);
            assert(((48 + e) as u8) as int == 48 + e);
        }
        lemma_fundamental_div_mod(b, 10);
    } else {
        assert(digits_of(a).len() + 1 <= digits_of(b / 10).len());
        assert(digits_of(b / 10).take(digits_of(a).len() as int + 1) =~= digits_of(b).take(digits_of(a).len() as int + 1));
        lemma_digits_prefix_digit(a, e, b / 10);
        lemma_fundamental_div_mod(b, 10);
        assert(b == 10 * (b / 10) + b % 10);
        assert(10 * (b / 10) >= 10 * (10 * a + e)) by (nonlinear_arith)
            requires
                b / 10 >= 10 * a + e,
        ;
        assert(10 * (10 * a + e) >= 10 * a + e) by (nonlinear_arith)
            requires
                a >= 0,
                e >= 0,
        ;
    }
}

/// At one position of one byte string there is at most one closed
/// decimal run.
proof fn lemma_digits_at_unique(b: Seq<u8>, pos: int, v1: u64, v2: u64)
    requires
        digits_at(b, pos, v1),
        digits_at(b, pos, v2),
    ensures
        v1 == v2,
{
    lemma_digits_are_digits(v1 as int);
    lemma_digits_are_digits(v2 as int);
    let l1 = digits_of(v1 as int).len() as int;
    let l2 = digits_of(v2 as int).len() as int;
    if l1 < l2 {
        assert(is_digit(b[pos + l1])) by {
            assert(b.subrange(pos, pos + l2)[l1] == b[pos + l1]);
            assert(is_digit(digits_of(v2 as int)[l1]));
        }
        assert(pos + l1 < pos + l2 <= b.len());
        assert(false);
    }
    if l2 < l1 {
        assert(is_digit(b[pos + l2])) by {
            assert(b.subrange(pos, pos + l1)[l2] == b[pos + l2]);
            assert(is_digit(digits_of(v1 as int)[l2]));
        }
        assert(pos + l2 < pos + l1 <= b.len());
        assert(false);
    }
    assert(digits_of(v1 as int) == digits_of(v2 as int));
    lemma_digits_injective(v1 as int, v2 as int);
}

/// At one position of one byte string there is at most one closed signed
/// decimal run.
proof fn lemma_sdigits_at_unique(b: Seq<u8>, pos: int, v1: i64, v2: i64)
    requires
        sdigits_at(b, pos, v1),
        sdigits_at(b, pos, v2),
    ensures
        v1 == v2,
{
    lemma_digits_are_digits(if v1 < 0 {
        -(v1 as int)
    } else {
        v1 as int
    });
    lemma_digits_are_digits(if v2 < 0 {
        -(v2 as int)
    } else {
        v2 as int
    });
    if v1 < 0 && v2 >= 0 {
        assert(b.subrange(pos, pos + sdigits_of(v1 as int).len())[0] == b[pos]);
        assert(b.subrange(pos, pos + sdigits_of(v2 as int).len())[0] == b[pos]);
        assert(b[pos] == 45u8);
        assert(is_digit(digits_of(v2 as int)[0]));
        assert(false);
    } else if v2 < 0 && v1 >= 0 {
        assert(b.subrange(pos, pos + sdigits_of(v1 as int).len())[0] == b[pos]);
        assert(b.subrange(pos, pos + sdigits_of(v2 as int).len())[0] == b[pos]);
        assert(b[pos] == 45u8);
        assert(is_digit(digits_of(v1 as int)[0]));
        assert(false);
    } else if v1 >= 0 && v2 >= 0 {
        assert(digits_at(b, pos, v1 as u64)) by {
            assert(sdigits_of(v1 as int) == digits_of(v1 as int));
        }
        assert(digits_at(b, pos, v2 as u64)) by {
            assert(sdigits_of(v2 as int) == digits_of(v2 as int));
        }
        lemma_digits_at_unique(b, pos, v1 as u64, v2 as u64);
    } else {
        let m1: u64 = (-(v1 as int)) as u64;
        let m2: u64 = (-(v2 as int)) as u64;
        assert(digits_at(b, pos + 1, m1)) by {
            assert(sdigits_of(v1 as int) == seq![45u8] + digits_of(m1 as int));
            assert(b.subrange(pos + 1, pos + 1 + digits_of(m1 as int).len()) =~= b.subrange(
                pos,
                pos + sdigits_of(v1 as int).len(),
            ).skip(1));
            assert(sdigits_of(v1 as int).skip(1) =~= digits_of(m1 as int));
        }
        assert(digits_at(b, pos + 1, m2)) by {
            assert(sdigits_of(v2 as int) == seq![45u8] + digits_of(m2 as int));
            assert(b.subrange(pos + 1, pos + 1 + digits_of(m2 as int).len()) =~= b.subrange(
                pos,
                pos + sdigits_of(v2 as int).len(),
            ).skip(1));
            assert(sdigits_of(v2 as int).skip(1) =~= digits_of(m2 as int));
        }
        lemma_digits_at_unique(b, pos + 1, m1, m2);
    }
}

/// Appends the decimal digits of a number.
pub fn push_digits(n: u64, out: &mut Vec<u8>)
    ensures
        final(out)@ == old(out)@ + digits_of(n as int),
    decreases n,
{
    if n < 10 {
        out.push(48 + (n as u8));
        proof {
            assert(out@ =~= old(out)@ + digits_of(n as int));
        }
    } else {
        push_digits(n / 10, out);
        out.push(48 + ((n % 10) as u8));
        proof {
            assert(out@ =~= old(out)@ + digits_of(n as int));
        }
    }
}

/// Appends the decimal digits of a signed number.
pub fn push_sdigits(v: i64, out: &mut Vec<u8>)
    requires
        v != i64::MIN,
    ensures
        final(out)@ == old(out)@ + sdigits_of(v as int),
{
    if v < 0 {
        out.push(45);
        push_digits((-v) as u64, out);
        proof {
            assert(out@ =~= old(out)@ + sdigits_of(v as int));
        }
    } else {
        push_digits(v as u64, out);
    }
}

/// Appends the bytes of a literal.
pub fn push_lit(lit: &str, out: &mut Vec<u8>)
    ensures
        final(out)@ == old(out)@ + lit.spec_bytes(),
{
    let lb: &[u8] = lit.as_bytes();
    let n: usize = lb.len();
    let mut i: usize = 0;
    while i < n
        invariant
            0 <= i <= n,
            n == lb@.len(),
            lb@ == lit.spec_bytes(),
            out@ == old(out)@ + lb@.take(i as int),
        decreases n - i,
    {
        out.push(lb[i]);
        proof {
            assert(lb@.take(i + 1) =~= lb@.take(i as int).push(lb@[i as int]));
            assert(old(out)@ + lb@.take(i as int).push(lb@[i as int]) =~= (old(out)@ + lb@.take(
                i as int,
            )).push(lb@[i as int]));
        }
        i += 1;
    }
    proof {
        assert(lb@.take(n as int) =~= lb@);
    }
}

/// Consumes the bytes of a literal at the given position: succeeds if
/// and only if they are exactly there.
pub fn match_lit(b: &[u8], pos: usize, lit: &str) -> (r: Option<usize>)
    requires
        pos <= b@.len(),
    ensures
        r matches Some(end) ==> {
            &&& pos + lit.spec_bytes().len() == end
            &&& end <= b@.len()
            &&& b@.subrange(pos as int, end as int) == lit.spec_bytes()
        },
        r is None ==> !(pos + lit.spec_bytes().len() <= b@.len() && b@.subrange(
            pos as int,
            pos + lit.spec_bytes().len(),
        ) == lit.spec_bytes()),
{
    let lb: &[u8] = lit.as_bytes();
    let n: usize = lb.len();
    if b.len() - pos < n {
        return None;
    }
    let mut i: usize = 0;
    while i < n
        invariant
            0 <= i <= n,
            n == lb@.len(),
            lb@ == lit.spec_bytes(),
            pos + n <= b@.len(),
            b@.len() <= usize::MAX,
            forall|j: int| 0 <= j < i ==> b@[pos + j] == lb@[j],
        decreases n - i,
    {
        if b[pos + i] != lb[i] {
            proof {
                if b@.subrange(pos as int, pos + n) == lb@ {
                    assert(b@.subrange(pos as int, pos + n)[i as int] == b@[pos + i]);
                }
            }
            return None;
        }
        i += 1;
    }
    proof {
        assert(b@.subrange(pos as int, pos + n) =~= lb@);
    }
    Some(pos + n)
}

/// Parses a canonical unsigned decimal number at the given position:
/// at least one digit, no leading zeros, extended as far as the digits
/// go.  Anything accepted is exactly the canonical digit run of the
/// returned value, and every closed canonical run is accepted.
pub fn parse_u64(b: &[u8], pos: usize) -> (r: Option<(u64, usize)>)
    requires
        pos <= b@.len(),
    ensures
        r matches Some((v, end)) ==> {
            &&& pos < end <= b@.len()
            &&& b@.subrange(pos as int, end as int) == digits_of(v as int)
            &&& (end == b@.len() || !is_digit(b@[end as int]))
            &&& digits_at(b@, pos as int, v)
            &&& end == pos + digits_of(v as int).len()
        },
        forall|v: u64| #[trigger] digits_at(b@, pos as int, v) ==> r == Some(
            (v, (pos + digits_of(v as int).len()) as usize),
        ),
{
    if pos == b.len() {
        proof {
            assert forall|v: u64| !digits_at(b@, pos as int, v) by {
                lemma_digits_are_digits(v as int);
            }
        }
        return None;
    }
    let c0 = b[pos];
    if !(48 <= c0 && c0 <= 57) {
        proof {
            assert forall|v: u64| !digits_at(b@, pos as int, v) by {
                if digits_at(b@, pos as int, v) {
                    lemma_digits_are_digits(v as int);
                    assert(b@.subrange(pos as int, pos + digits_of(v as int).len())[0] == b@[pos as int]);
                    assert(is_digit(digits_of(v as int)[0]));
                }
            }
        }
        return None;
    }
    if c0 == 48 {
        // a canonical zero stands alone
        if pos + 1 < b.len() {
            let c1 = b[pos + 1];
            if 48 <= c1 && c1 <= 57 {
                proof {
                    assert forall|v: u64| !digits_at(b@, pos as int, v) by {
                        if digits_at(b@, pos as int, v) {
                            lemma_digits_are_digits(v as int);
                            assert(b@.subrange(pos as int, pos + digits_of(v as int).len())[0]
                                == b@[pos as int]);
                            if v >= 1 {
                                lemma_digits_leading_nonzero(v as int);
                            }
                            assert(v == 0);
                            assert(digits_of(0).len() == 1);
                        }
                    }
                }
                return None;
            }
        }
        proof {
            assert(b@.subrange(pos as int, pos + 1) =~= digits_of(0));
            assert(digits_at(b@, pos as int, 0));
            assert forall|v: u64| #[trigger] digits_at(b@, pos as int, v) implies v == 0 by {
                lemma_digits_at_unique(b@, pos as int, v, 0);
            }
        }
        return Some((0, pos + 1));
    }
    let mut v: u64 = (c0 - 48) as u64;
    let mut end: usize = pos + 1;
    proof {
        assert(b@.subrange(pos as int, pos + 1) =~= digits_of(v as int));
    }
    while end < b.len() && 48 <= b[end] && b[end] <= 57
        invariant
            pos < end <= b@.len(),
            1 <= v,
            b@.subrange(pos as int, end as int) == digits_of(v as int),
            end == pos + digits_of(v as int).len(),
        decreases b@.len() - end,
    {
        let d: u64 = (b[end] - 48) as u64;
        let wide: u128 = (v as u128) * 10 + (d as u128);
        proof {
            assert((v as u128) as int * 10 + d <= 0xffff_ffff_ffff_ffffu64 as int * 10 + 9) by (
            nonlinear_arith)
                requires
                    v <= 0xffff_ffff_ffff_ffffu64,
                    d <= 9,
            ;
        }
        if wide > 0xffff_ffff_ffff_ffffu128 {
            proof {
                lemma_digits_are_digits(v as int);
                assert forall|w: u64| !digits_at(b@, pos as int, w) by {
                    if digits_at(b@, pos as int, w) {
                        lemma_digits_are_digits(w as int);
                        let lw = digits_of(w as int).len() as int;
                        let lv = digits_of(v as int).len() as int;
                        // the run of w cannot stop inside the digits seen so far
                        if pos + lw <= end as int {
                            assert(is_digit(b@[pos + lw])) by {
                                if pos + lw < end as int {
                                    assert(b@.subrange(pos as int, end as int)[lw] == b@[pos + lw]);
                                    assert(is_digit(digits_of(v as int)[lw]));
                                }
                            }
                            assert(pos + lw < b@.len());
                            assert(false);
                        }
                        // so the seen digits and the next one prefix the run of w
                        assert(digits_of(w as int).take(lv) =~= digits_of(v as int)) by {
                            assert(forall|i: int|
                                0 <= i < lv ==> b@.subrange(pos as int, pos + lw)[i] == #[trigger] b@.subrange(
                                    pos as int,
                                    end as int,
                                )[i]);
                        }
                        assert(digits_of(w as int).take(lv + 1) =~= digits_of(v as int).push(
                            (48 + d) as u8,
                        )) by {
                            assert(digits_of(w as int)[lv] == b@.subrange(pos as int, pos + lw)[
                                lv]);
                            assert(b@[end as int] == (48 + d) as u8);
                        }
                        lemma_digits_prefix_digit(v as int, d as int, w as int);
                        assert(w >= 10 * (v as int) + d);
                        assert(false);
                    }
                }
            }
            return None;
        }
        let v2: u64 = (wide) as u64;
        proof {
            assert(v2 == v * 10 + d);
            assert(v2 >= 10) by (nonlinear_arith)
                requires
                    v >= 1,
                    v2 == v * 10 + d,
                    d >= 0,
            ;
            assert(v2 as int / 10 == v && v2 as int % 10 == d) by (nonlinear_arith)
                requires
                    v2 == v * 10 + d,
                    0 <= d <= 9,
                    v >= 0,
            ;
            assert(digits_of(v2 as int) == digits_of(v as int).push((48 + d) as u8));
            assert(b@.subrange(pos as int, end + 1) =~= b@.subrange(pos as int, end as int).push(
                b@[end as int],
            ));
        }
        v = v2;
        end += 1;
    }
    proof {
        assert(digits_at(b@, pos as int, v));
        assert forall|w: u64| #[trigger] digits_at(b@, pos as int, w) implies w == v by {
            lemma_digits_at_unique(b@, pos as int, w, v);
        }
    }
    Some((v, end))
}

/// Concatenation lays its two parts out side by side.
proof fn lemma_cat_layout(a: Seq<u8>, c: Seq<u8>)
    ensures
        (a + c).len() == a.len() + c.len(),
        (a + c).subrange(0, a.len() as int) == a,
        (a + c).subrange(a.len() as int, (a + c).len() as int) == c,
{
    assert((a + c).subrange(0, a.len() as int) =~= a);
    assert((a + c).subrange(a.len() as int, (a + c).len() as int) =~= c);
}

/// A piece of a byte string standing at `pos` stands at `pos` plus its
/// own offset.
proof fn lemma_piece_at(b: Seq<u8>, pos: int, whole: Seq<u8>, off: int, piece: Seq<u8>)
    requires
        0 <= pos,
        pos + whole.len() <= b.len(),
        b.subrange(pos, pos + whole.len() as int) == whole,
        0 <= off,
        off + piece.len() <= whole.len(),
        whole.subrange(off, off + piece.len() as int) == piece,
    ensures
        b.subrange(pos + off, pos + off + piece.len() as int) == piece,
{
    assert(b.subrange(pos + off, pos + off + piece.len() as int) =~= piece) by {
        assert(forall|i: int|
            0 <= i < whole.len() ==> b.subrange(pos, pos + whole.len() as int)[i]
                == #[trigger] b[pos + i]);
    }
}

/// First bytes of the reading separators.
proof fn lemma_sample_lit_heads()
    ensures
        "{\"x\":".spec_bytes().len() >= 1,
        "{\"x\":".spec_bytes()[0] == 123u8,
        ",\"y\":".spec_bytes().len() >= 1,
        ",\"y\":".spec_bytes()[0] == 44u8,
        ",\"z\":".spec_bytes().len() >= 1,
        ",\"z\":".spec_bytes()[0] == 44u8,
        "}".spec_bytes().len() >= 1,
        "}".spec_bytes()[0] == 125u8,
{
    reveal_strlit("{\"x\":");
    assert(vstd::string::is_ascii("{\"x\":"));
    vstd::utf8::is_ascii_chars_encode_utf8(("{\"x\":")@);
    assert(("{\"x\":").spec_bytes()[0] == ("{\"x\":")@[0] as u8);
    reveal_strlit(",\"y\":");
    assert(vstd::string::is_ascii(",\"y\":"));
    vstd::utf8::is_ascii_chars_encode_utf8((",\"y\":")@);
    assert((",\"y\":").spec_bytes()[0] == (",\"y\":")@[0] as u8);
    reveal_strlit(",\"z\":");
    assert(vstd::string::is_ascii(",\"z\":"));
    vstd::utf8::is_ascii_chars_encode_utf8((",\"z\":")@);
    assert((",\"z\":").spec_bytes()[0] == (",\"z\":")@[0] as u8);
    reveal_strlit("}");
    assert(vstd::string::is_ascii("}"));
    vstd::utf8::is_ascii_chars_encode_utf8(("}")@);
    assert(("}").spec_bytes()[0] == ("}")@[0] as u8);
}

/// First bytes of the reading-list separators.
proof fn lemma_list_lit_heads()
    ensures
        ",".spec_bytes().len() == 1,
        ",".spec_bytes()[0] == 44u8,
        "]}".spec_bytes().len() == 2,
        "]}".spec_bytes()[0] == 93u8,
{
    reveal_strlit(",");
    assert(vstd::string::is_ascii(","));
    vstd::utf8::is_ascii_chars_encode_utf8((",")@);
    assert((",").spec_bytes()[0] == (",")@[0] as u8);
    reveal_strlit("]}");
    assert(vstd::string::is_ascii("]}"));
    vstd::utf8::is_ascii_chars_encode_utf8(("]}")@);
    assert(("]}").spec_bytes()[0] == ("]}")@[0] as u8);
}

/// First bytes of the magnitude-series field names.
proof fn lemma_stats_lit_heads_mag()
    ensures
        ",\"std_dev_mag\":".spec_bytes().len() >= 1,
        ",\"std_dev_mag\":".spec_bytes()[0] == 44u8,
        ",\"min_mag\":".spec_bytes().len() >= 1,
        ",\"min_mag\":".spec_bytes()[0] == 44u8,
        ",\"max_mag\":".spec_bytes().len() >= 1,
        ",\"max_mag\":".spec_bytes()[0] == 44u8,
        ",\"coeff_var_mag\":".spec_bytes().len() >= 1,
        ",\"coeff_var_mag\":".spec_bytes()[0] == 44u8,
        ",\"percentile_25_mag\":".spec_bytes().len() >= 1,
        ",\"percentile_25_mag\":".spec_bytes()[0] == 44u8,
        ",\"percentile_75_mag\":".spec_bytes().len() >= 1,
        ",\"percentile_75_mag\":".spec_bytes()[0] == 44u8,
{
    reveal_strlit(",\"std_dev_mag\":");
    assert(vstd::string::is_ascii(",\"std_dev_mag\":"));
    vstd::utf8::is_ascii_chars_encode_utf8((",\"std_dev_mag\":")@);
    assert((",\"std_dev_mag\":").spec_bytes()[0] == (",\"std_dev_mag\":")@[0] as u8);
    reveal_strlit(",\"min_mag\":");
    assert(vstd::string::is_ascii(",\"min_mag\":"));
    vstd::utf8::is_ascii_chars_encode_utf8((",\"min_mag\":")@);
    assert((",\"min_mag\":").spec_bytes()[0] == (",\"min_mag\":")@[0] as u8);
    reveal_strlit(",\"max_mag\":");
    assert(vstd::string::is_ascii(",\"max_mag\":"));
    vstd::utf8::is_ascii_chars_encode_utf8((",\"max_mag\":")@);
    assert((",\"max_mag\":").spec_bytes()[0] == (",\"max_mag\":")@[0] as u8);
    reveal_strlit(",\"coeff_var_mag\":");
    assert(vstd::string::is_ascii(",\"coeff_var_mag\":"));
    vstd::utf8::is_ascii_chars_encode_utf8((",\"coeff_var_mag\":")@);
    assert((",\"coeff_var_mag\":").spec_bytes()[0] == (",\"coeff_var_mag\":")@[0] as u8);
    reveal_strlit(",\"percentile_25_mag\":");
    assert(vstd::string::is_ascii(",\"percentile_25_mag\":"));
    vstd::utf8::is_ascii_chars_encode_utf8((",\"percentile_25_mag\":")@);
    assert((",\"percentile_25_mag\":").spec_bytes()[0] == (",\"percentile_25_mag\":")@[0] as u8);
    reveal_strlit(",\"percentile_75_mag\":");
    assert(vstd::string::is_ascii(",\"percentile_75_mag\":"));
    vstd::utf8::is_ascii_chars_encode_utf8((",\"percentile_75_mag\":")@);
    assert((",\"percentile_75_mag\":").spec_bytes()[0] == (",\"percentile_75_mag\":")@[0] as u8);
}

/// First bytes of the x-series field names.
proof fn lemma_stats_lit_heads_x()
    ensures
        ",\"mean_x\":".spec_bytes().len() >= 1,
        ",\"mean_x\":".spec_bytes()[0] == 44u8,
        ",\"std_dev_x\":".spec_bytes().len() >= 1,
        ",\"std_dev_x\":".spec_bytes()[0] == 44u8,
        ",\"min_x\":".spec_bytes().len() >= 1,
        ",\"min_x\":".spec_bytes()[0] == 44u8,
        ",\"max_x\":".spec_bytes().len() >= 1,
        ",\"max_x\":".spec_bytes()[0] == 44u8,
        ",\"coeff_var_x\":".spec_bytes().len() >= 1,
        ",\"coeff_var_x\":".spec_bytes()[0] == 44u8,
        ",\"percentile_25_x\":".spec_bytes().len() >= 1,
        ",\"percentile_25_x\":".spec_bytes()[0] == 44u8,
        ",\"percentile_75_x\":".spec_bytes().len() >= 1,
        ",\"percentile_75_x\":".spec_bytes()[0] == 44u8,
{
    reveal_strlit(",\"mean_x\":");
    assert(vstd::string::is_ascii(",\"mean_x\":"));
    vstd::utf8::is_ascii_chars_encode_utf8((",\"mean_x\":")@);
    assert((",\"mean_x\":").spec_bytes()[0] == (",\"mean_x\":")@[0] as u8);
    reveal_strlit(",\"std_dev_x\":");
    assert(vstd::string::is_ascii(",\"std_dev_x\":"));
    vstd::utf8::is_ascii_chars_encode_utf8((",\"std_dev_x\":")@);
    assert((",\"std_dev_x\":").spec_bytes()[0] == (",\"std_dev_x\":")@[0] as u8);
    reveal_strlit(",\"min_x\":");
    assert(vstd::string::is_ascii(",\"min_x\":"));
    vstd::utf8::is_ascii_chars_encode_utf8((",\"min_x\":")@);
    assert((",\"min_x\":").spec_bytes()[0] == (",\"min_x\":")@[0] as u8);
    reveal_strlit(",\"max_x\":");
    assert(vstd::string::is_ascii(",\"max_x\":"));
    vstd::utf8::is_ascii_chars_encode_utf8((",\"max_x\":")@);
    assert((",\"max_x\":").spec_bytes()[0] == (",\"max_x\":")@[0] as u8);
    reveal_strlit(",\"coeff_var_x\":");
    assert(vstd::string::is_ascii(",\"coeff_var_x\":"));
    vstd::utf8::is_ascii_chars_encode_utf8((",\"coeff_var_x\":")@);
    assert((",\"coeff_var_x\":").spec_bytes()[0] == (",\"coeff_var_x\":")@[0] as u8);
    reveal_strlit(",\"percentile_25_x\":");
    assert(vstd::string::is_ascii(",\"percentile_25_x\":"));
    vstd::utf8::is_ascii_chars_encode_utf8((",\"percentile_25_x\":")@);
    assert((",\"percentile_25_x\":").spec_bytes()[0] == (",\"percentile_25_x\":")@[0] as u8);
    reveal_strlit(",\"percentile_75_x\":");
    assert(vstd::string::is_ascii(",\"percentile_75_x\":"));
    vstd::utf8::is_ascii_chars_encode_utf8((",\"percentile_75_x\":")@);
    assert((",\"percentile_75_x\":").spec_bytes()[0] == (",\"percentile_75_x\":")@[0] as u8);
}

/// First bytes of the y-series field names.
proof fn lemma_stats_lit_heads_y()
    ensures
        ",\"mean_y\":".spec_bytes().len() >= 1,
        ",\"mean_y\":".spec_bytes()[0] == 44u8,
        ",\"std_dev_y\":".spec_bytes().len() >= 1,
        ",\"std_dev_y\":".spec_bytes()[0] == 44u8,
        ",\"min_y\":".spec_bytes().len() >= 1,
        ",\"min_y\":".spec_bytes()[0] == 44u8,
        ",\"max_y\":".spec_bytes().len() >= 1,
        ",\"max_y\":".spec_bytes()[0] == 44u8,
        ",\"coeff_var_y\":".spec_bytes().len() >= 1,
        ",\"coeff_var_y\":".spec_bytes()[0] == 44u8,
        ",\"percentile_25_y\":".spec_bytes().len() >= 1,
        ",\"percentile_25_y\":".spec_bytes()[0] == 44u8,
        ",\"percentile_75_y\":".spec_bytes().len() >= 1,
        ",\"percentile_75_y\":".spec_bytes()[0] == 44u8,
{
    reveal_strlit(",\"mean_y\":");
    assert(vstd::string::is_ascii(",\"mean_y\":"));
    vstd::utf8::is_ascii_chars_encode_utf8((",\"mean_y\":")@);
    assert((",\"mean_y\":").spec_bytes()[0] == (",\"mean_y\":")@[0] as u8);
    reveal_strlit(",\"std_dev_y\":");
    assert(vstd::string::is_ascii(",\"std_dev_y\":"));
    vstd::utf8::is_ascii_chars_encode_utf8((",\"std_dev_y\":")@);
    assert((",\"std_dev_y\":").spec_bytes()[0] == (",\"std_dev_y\":")@[0] as u8);
    reveal_strlit(",\"min_y\":");
    assert(vstd::string::is_ascii(",\"min_y\":"));
    vstd::utf8::is_ascii_chars_encode_utf8((",\"min_y\":")@);
    assert((",\"min_y\":").spec_bytes()[0] == (",\"min_y\":")@[0] as u8);
    reveal_strlit(",\"max_y\":");
    assert(vstd::string::is_ascii(",\"max_y\":"));
    vstd::utf8::is_ascii_chars_encode_utf8((",\"max_y\":")@);
    assert((",\"max_y\":").spec_bytes()[0] == (",\"max_y\":")@[0] as u8);
    reveal_strlit(",\"coeff_var_y\":");
    assert(vstd::string::is_ascii(",\"coeff_var_y\":"));
    vstd::utf8::is_ascii_chars_encode_utf8((",\"coeff_var_y\":")@);
    assert((",\"coeff_var_y\":").spec_bytes()[0] == (",\"coeff_var_y\":")@[0] as u8);
    reveal_strlit(",\"percentile_25_y\":");
    assert(vstd::string::is_ascii(",\"percentile_25_y\":"));
    vstd::utf8::is_ascii_chars_encode_utf8((",\"percentile_25_y\":")@);
    assert((",\"percentile_25_y\":").spec_bytes()[0] == (",\"percentile_25_y\":")@[0] as u8);
    reveal_strlit(",\"percentile_75_y\":");
    assert(vstd::string::is_ascii(",\"percentile_75_y\":"));
    vstd::utf8::is_ascii_chars_encode_utf8((",\"percentile_75_y\":")@);
    assert((",\"percentile_75_y\":").spec_bytes()[0] == (",\"percentile_75_y\":")@[0] as u8);
}

/// First bytes of the z-series field names.
proof fn lemma_stats_lit_heads_z()
    ensures
        ",\"mean_z\":".spec_bytes().len() >= 1,
        ",\"mean_z\":".spec_bytes()[0] == 44u8,
        ",\"std_dev_z\":".spec_bytes().len() >= 1,
        ",\"std_dev_z\":".spec_bytes()[0] == 44u8,
        ",\"min_z\":".spec_bytes().len() >= 1,
        ",\"min_z\":".spec_bytes()[0] == 44u8,
        ",\"max_z\":".spec_bytes().len() >= 1,
        ",\"max_z\":".spec_bytes()[0] == 44u8,
        ",\"coeff_var_z\":".spec_bytes().len() >= 1,
        ",\"coeff_var_z\":".spec_bytes()[0] == 44u8,
        ",\"percentile_25_z\":".spec_bytes().len() >= 1,
        ",\"percentile_25_z\":".spec_bytes()[0] == 44u8,
        ",\"percentile_75_z\":".spec_bytes().len() >= 1,
        ",\"percentile_75_z\":".spec_bytes()[0] == 44u8,
{
    reveal_strlit(",\"mean_z\":");
    assert(vstd::string::is_ascii(",\"mean_z\":"));
    vstd::utf8::is_ascii_chars_encode_utf8((",\"mean_z\":")@);
    assert((",\"mean_z\":").spec_bytes()[0] == (",\"mean_z\":")@[0] as u8);
    reveal_strlit(",\"std_dev_z\":");
    assert(vstd::string::is_ascii(",\"std_dev_z\":"));
    vstd::utf8::is_ascii_chars_encode_utf8((",\"std_dev_z\":")@);
    assert((",\"std_dev_z\":").spec_bytes()[0] == (",\"std_dev_z\":")@[0] as u8);
    reveal_strlit(",\"min_z\":");
    assert(vstd::string::is_ascii(",\"min_z\":"));
    vstd::utf8::is_ascii_chars_encode_utf8((",\"min_z\":")@);
    assert((",\"min_z\":").spec_bytes()[0] == (",\"min_z\":")@[0] as u8);
    reveal_strlit(",\"max_z\":");
    assert(vstd::string::is_ascii(",\"max_z\":"));
    vstd::utf8::is_ascii_chars_encode_utf8((",\"max_z\":")@);
    assert((",\"max_z\":").spec_bytes()[0] == (",\"max_z\":")@[0] as u8);
    reveal_strlit(",\"coeff_var_z\":");
    assert(vstd::string::is_ascii(",\"coeff_var_z\":"));
    vstd::utf8::is_ascii_chars_encode_utf8((",\"coeff_var_z\":")@);
    assert((",\"coeff_var_z\":").spec_bytes()[0] == (",\"coeff_var_z\":")@[0] as u8);
    reveal_strlit(",\"percentile_25_z\":");
    assert(vstd::string::is_ascii(",\"percentile_25_z\":"));
    vstd::utf8::is_ascii_chars_encode_utf8((",\"percentile_25_z\":")@);
    assert((",\"percentile_25_z\":").spec_bytes()[0] == (",\"percentile_25_z\":")@[0] as u8);
    reveal_strlit(",\"percentile_75_z\":");
    assert(vstd::string::is_ascii(",\"percentile_75_z\":"));
    vstd::utf8::is_ascii_chars_encode_utf8((",\"percentile_75_z\":")@);
    assert((",\"percentile_75_z\":").spec_bytes()[0] == (",\"percentile_75_z\":")@[0] as u8);
}

/// First bytes of the closing pieces of the message documents.
proof fn lemma_close_lit_heads()
    ensures
        "}}".spec_bytes().len() == 2,
        "}}".spec_bytes()[0] == 125u8,
        "\"}".spec_bytes().len() == 2,
        "\"}".spec_bytes()[0] == 34u8,
{
    reveal_strlit("}}");
    assert(vstd::string::is_ascii("}}"));
    vstd::utf8::is_ascii_chars_encode_utf8(("}}")@);
    assert(("}}").spec_bytes()[0] == ("}}")@[0] as u8);
    reveal_strlit("\"}");
    assert(vstd::string::is_ascii("\"}"));
    vstd::utf8::is_ascii_chars_encode_utf8(("\"}")@);
    assert(("\"}").spec_bytes()[0] == ("\"}")@[0] as u8);
}

/// A signed run at `pos` for a negative value yields an unsigned run
/// for its magnitude one byte further in.
proof fn lemma_sdigits_at_negative(b: Seq<u8>, pos: int, v: i64)
    requires
        sdigits_at(b, pos, v),
        v < 0,
        v != i64::MIN,
    ensures
        b[pos] == 45u8,
        digits_at(b, pos + 1, (-(v as int)) as u64),
{
    let m: u64 = (-(v as int)) as u64;
    lemma_digits_are_digits(m as int);
    assert(sdigits_of(v as int) == seq![45u8] + digits_of(m as int));
    assert(b.subrange(pos, pos + sdigits_of(v as int).len())[0] == b[pos]);
    assert(b.subrange(pos + 1, pos + 1 + digits_of(m as int).len()) =~= b.subrange(
        pos,
        pos + sdigits_of(v as int).len(),
    ).skip(1));
    assert(sdigits_of(v as int).skip(1) =~= digits_of(m as int));
}

/// Parses a canonical signed decimal number at the given position: an
/// optional minus sign (never before a zero) and a canonical digit run.
/// Every closed canonical run of a machine integer is accepted.
pub fn parse_i64(b: &[u8], pos: usize) -> (r: Option<(i64, usize)>)
    requires
        pos <= b@.len(),
    ensures
        r matches Some((v, end)) ==> {
            &&& pos < end <= b@.len()
            &&& b@.subrange(pos as int, end as int) == sdigits_of(v as int)
            &&& (end == b@.len() || !is_digit(b@[end as int]))
            &&& v != i64::MIN
            &&& sdigits_at(b@, pos as int, v)
            &&& end == pos + sdigits_of(v as int).len()
        },
        forall|v: i64| #[trigger] sdigits_at(b@, pos as int, v) && v != i64::MIN ==> r == Some(
            (v, (pos + sdigits_of(v as int).len()) as usize),
        ),
{
    if pos == b.len() {
        proof {
            assert forall|v: i64| !sdigits_at(b@, pos as int, v) by {
                if v < 0 {
                    lemma_digits_are_digits(-(v as int));
                } else {
                    lemma_digits_are_digits(v as int);
                }
            }
        }
        return None;
    }
    if b[pos] == 45 {
        proof {
            assert forall|v: i64| #[trigger] sdigits_at(b@, pos as int, v) implies v < 0 by {
                if v >= 0 {
                    lemma_digits_are_digits(v as int);
                    assert(b@.subrange(pos as int, pos + sdigits_of(v as int).len())[0] == b@[pos as int]);
                    assert(is_digit(digits_of(v as int)[0]));
                }
            }
        }
        match parse_u64(b, pos + 1) {
            None => {
                proof {
                    assert forall|v: i64| !(sdigits_at(b@, pos as int, v) && v != i64::MIN) by {
                        if sdigits_at(b@, pos as int, v) && v != i64::MIN {
                            lemma_sdigits_at_negative(b@, pos as int, v);
                        }
                    }
                }
                None
            },
            Some((u, end)) => {
                if u == 0 || u > 0x7fff_ffff_ffff_ffffu64 {
                    // no canonical negative zero, and the magnitude must fit
                    proof {
                        assert forall|v: i64| !(sdigits_at(b@, pos as int, v) && v
                            != i64::MIN) by {
                            if sdigits_at(b@, pos as int, v) && v != i64::MIN {
                                lemma_sdigits_at_negative(b@, pos as int, v);
                                lemma_digits_at_unique(
                                    b@,
                                    pos + 1,
                                    u,
                                    (-(v as int)) as u64,
                                );
                            }
                        }
                    }
                    None
                } else {
                    let v: i64 = -(u as i64);
                    proof {
                        assert(b@.subrange(pos as int, end as int) =~= seq![45u8] + b@.subrange(
                            pos + 1,
                            end as int,
                        ));
                        assert(sdigits_at(b@, pos as int, v));
                        assert forall|w: i64| #[trigger] sdigits_at(b@, pos as int, w) && w
                            != i64::MIN implies w == v by {
                            lemma_sdigits_at_negative(b@, pos as int, w);
                            lemma_digits_at_unique(b@, pos + 1, u, (-(w as int)) as u64);
                        }
                    }
                    Some((v, end))
                }
            },
        }
    } else {
        proof {
            assert forall|v: i64| #[trigger] sdigits_at(b@, pos as int, v) implies v >= 0
                && digits_at(b@, pos as int, v as u64) by {
                if v < 0 {
                    lemma_digits_are_digits(-(v as int));
                    assert(sdigits_of(v as int) == seq![45u8] + digits_of(-(v as int)));
                    assert(b@.subrange(pos as int, pos + sdigits_of(v as int).len())[0] == b@[pos as int]);
                }
                assert(sdigits_of(v as int) == digits_of(v as int));
            }
        }
        match parse_u64(b, pos) {
            None => None,
            Some((u, end)) => {
                if u > 0x7fff_ffff_ffff_ffffu64 {
                    proof {
                        assert forall|v: i64| !(sdigits_at(b@, pos as int, v) && v
                            != i64::MIN) by {
                            if sdigits_at(b@, pos as int, v) {
                                lemma_digits_at_unique(b@, pos as int, u, v as u64);
                            }
                        }
                    }
                    None
                } else {
                    proof {
                        assert(sdigits_at(b@, pos as int, u as i64));
                        assert forall|w: i64| #[trigger] sdigits_at(b@, pos as int, w) && w
                            != i64::MIN implies w == u as i64 by {
                            lemma_digits_at_unique(b@, pos as int, u, w as u64);
                        }
                    }
                    Some((u as i64, end))
                }
            },
        }
    }
}

/// One inbound batch of raw readings, correlated by its batch identifier.
#[derive(Clone, Debug)]
pub struct SensorBatchMessage {
    pub batch_id: u64,
    pub samples: Vec<Sample>,
}

/// The canonical encoding of one reading.
pub open spec fn spec_sample_json(s: Sample) -> Seq<u8> {
    "{\"x\":".spec_bytes() + sdigits_of(s.x as int) + ",\"y\":".spec_bytes() + sdigits_of(
        s.y as int,
    ) + ",\"z\":".spec_bytes() + sdigits_of(s.z as int) + "}".spec_bytes()
}

/// The canonical encoding of a reading list, comma separated.
pub open spec fn spec_samples_json(w: Seq<Sample>) -> Seq<u8>
    decreases w.len(),
{
    if w.len() == 0 {
        Seq::empty()
    } else if w.len() == 1 {
        spec_sample_json(w[0])
    } else {
        spec_samples_json(w.drop_last()) + ",".spec_bytes() + spec_sample_json(w.last())
    }
}

/// The canonical encoding of a sensor-batch message.
pub open spec fn spec_batch_json(batch_id: u64, w: Seq<Sample>) -> Seq<u8> {
    "{\"batch_id\":".spec_bytes() + digits_of(batch_id as int) + ",\"batch\":[".spec_bytes()
        + spec_samples_json(w) + "]}".spec_bytes()
}

/// Appends the canonical encoding of one reading.
fn push_sample(s: &Sample, out: &mut Vec<u8>)
    requires
        sample_wf(*s),
    ensures
        final(out)@ == old(out)@ + spec_sample_json(*s),
{
    push_lit("{\"x\":", out);
    push_sdigits(s.x, out);
    push_lit(",\"y\":", out);
    push_sdigits(s.y, out);
    push_lit(",\"z\":", out);
    push_sdigits(s.z, out);
    push_lit("}", out);
    proof {
        assert(out@ =~= old(out)@ + spec_sample_json(*s));
    }
}

/// Builds the canonical sensor-batch message.
pub fn build_batch_message(batch_id: u64, samples: &Vec<Sample>) -> (r: Vec<u8>)
    requires
        samples_wf(samples@),
    ensures
        r@ == spec_batch_json(batch_id, samples@),
{
    let mut out: Vec<u8> = Vec::new();
    push_lit("{\"batch_id\":", &mut out);
    push_digits(batch_id, &mut out);
    push_lit(",\"batch\":[", &mut out);
    let ghost prefix = out@;
    proof {
        assert(out@ =~= prefix + spec_samples_json(samples@.take(0)));
    }
    let n: usize = samples.len();
    let mut i: usize = 0;
    while i < n
        invariant
            0 <= i <= n,
            n == samples@.len(),
            samples_wf(samples@),
            out@ == prefix + spec_samples_json(samples@.take(i as int)),
        decreases n - i,
    {
        proof {
            assert(sample_wf(samples@[i as int]));
        }
        if i > 0 {
            push_lit(",", &mut out);
        }
        let s = samples[i];
        push_sample(&s, &mut out);
        proof {
            assert(samples@.take(i + 1).drop_last() =~= samples@.take(i as int));
            assert(samples@.take(i + 1).last() == samples@[i as int]);
            assert(out@ =~= prefix + spec_samples_json(samples@.take(i + 1)));
        }
        i += 1;
    }
    push_lit("]}", &mut out);
    proof {
        assert(samples@.take(n as int) =~= samples@);
        assert(out@ =~= spec_batch_json(batch_id, samples@));
    }
    out
}

/// A well-formed reading's encoding stands exactly at `pos`.
pub open spec fn sample_at(b: Seq<u8>, pos: int, s: Sample) -> bool {
    &&& 0 <= pos
    &&& pos + spec_sample_json(s).len() <= b.len()
    &&& b.subrange(pos, pos + spec_sample_json(s).len() as int) == spec_sample_json(s)
    &&& sample_wf(s)
}

/// Where each piece of a reading's encoding stands.
#[verifier::rlimit(100)]
#[verifier::spinoff_prover]
proof fn lemma_sample_at_pieces(b: Seq<u8>, pos: int, s: Sample)
    requires
        sample_at(b, pos, s),
    ensures
        ({
            let p1 = pos + "{\"x\":".spec_bytes().len();
            let p2 = p1 + sdigits_of(s.x as int).len();
            let p3 = p2 + ",\"y\":".spec_bytes().len();
            let p4 = p3 + sdigits_of(s.y as int).len();
            let p5 = p4 + ",\"z\":".spec_bytes().len();
            let p6 = p5 + sdigits_of(s.z as int).len();
            let p7 = p6 + "}".spec_bytes().len();
            &&& p7 == pos + spec_sample_json(s).len()
            &&& p7 <= b.len()
            &&& b.subrange(pos, pos + "{\"x\":".spec_bytes().len() as int)
                == "{\"x\":".spec_bytes()
            &&& sdigits_at(b, p1, s.x)
            &&& b.subrange(p2, p2 + ",\"y\":".spec_bytes().len() as int) == ",\"y\":".spec_bytes()
            &&& sdigits_at(b, p3, s.y)
            &&& b.subrange(p4, p4 + ",\"z\":".spec_bytes().len() as int) == ",\"z\":".spec_bytes()
            &&& sdigits_at(b, p5, s.z)
            &&& b.subrange(p6, p6 + "}".spec_bytes().len() as int) == "}".spec_bytes()
        }),
{
    lemma_sample_lit_heads();
    let w = spec_sample_json(s);
    let l1 = "{\"x\":".spec_bytes();
    let dx = sdigits_of(s.x as int);
    let l2 = ",\"y\":".spec_bytes();
    let dy = sdigits_of(s.y as int);
    let l3 = ",\"z\":".spec_bytes();
    let dz = sdigits_of(s.z as int);
    let l4 = "}".spec_bytes();
    let a1 = l1 + dx;
    let a2 = a1 + l2;
    let a3 = a2 + dy;
    let a4 = a3 + l3;
    let a5 = a4 + dz;
    assert(w == a5 + l4);
    lemma_cat_layout(a5, l4);
    lemma_cat_layout(a4, dz);
    lemma_cat_layout(a3, l3);
    lemma_cat_layout(a2, dy);
    lemma_cat_layout(a1, l2);
    lemma_cat_layout(l1, dx);
    lemma_piece_at(b, pos, w, 0, a5);
    lemma_piece_at(b, pos, w, a5.len() as int, l4);
    lemma_piece_at(b, pos, a5, 0, a4);
    lemma_piece_at(b, pos, a5, a4.len() as int, dz);
    lemma_piece_at(b, pos, a4, 0, a3);
    lemma_piece_at(b, pos, a4, a3.len() as int, l3);
    lemma_piece_at(b, pos, a3, 0, a2);
    lemma_piece_at(b, pos, a3, a2.len() as int, dy);
    lemma_piece_at(b, pos, a2, 0, a1);
    lemma_piece_at(b, pos, a2, a1.len() as int, l2);
    lemma_piece_at(b, pos, a1, 0, l1);
    lemma_piece_at(b, pos, a1, l1.len() as int, dx);
    let p1 = pos + l1.len();
    let p2 = p1 + dx.len();
    let p3 = p2 + l2.len();
    let p4 = p3 + dy.len();
    let p5 = p4 + l3.len();
    let p6 = p5 + dz.len();
    assert(sdigits_at(b, p1 as int, s.x)) by {
        assert(b.subrange(p2 as int, p2 + l2.len() as int)[0] == b[p2 as int]);
        assert(!is_digit(b[p2 as int]));
    }
    assert(sdigits_at(b, p3 as int, s.y)) by {
        assert(b.subrange(p4 as int, p4 + l3.len() as int)[0] == b[p4 as int]);
        assert(!is_digit(b[p4 as int]));
    }
    assert(sdigits_at(b, p5 as int, s.z)) by {
        assert(b.subrange(p6 as int, p6 + l4.len() as int)[0] == b[p6 as int]);
        assert(!is_digit(b[p6 as int]));
    }
}

/// Parses the canonical encoding of one reading: anything accepted is
/// exactly the canonical encoding of the returned reading, and every
/// well-formed reading's encoding is accepted.
fn parse_sample(b: &[u8], pos: usize) -> (r: Option<(Sample, usize)>)
    requires
        pos <= b@.len(),
    ensures
        r matches Some((s, end)) ==> {
            &&& pos < end <= b@.len()
            &&& b@.subrange(pos as int, end as int) == spec_sample_json(s)
            &&& sample_wf(s)
            &&& end == pos + spec_sample_json(s).len()
        },
        forall|s: Sample| #[trigger] sample_at(b@, pos as int, s) ==> r == Some(
            (s, (pos + spec_sample_json(s).len()) as usize),
        ),
{
    let e1 = match match_lit(b, pos, "{\"x\":") {
        None => {
            proof {
                assert forall|s: Sample| !sample_at(b@, pos as int, s) by {
                    if sample_at(b@, pos as int, s) {
                        lemma_sample_at_pieces(b@, pos as int, s);
                    }
                }
            }
            return None;
        },
        Some(e) => e,
    };
    let (x, e2) = match parse_i64(b, e1) {
        None => {
            proof {
                assert forall|s: Sample| !sample_at(b@, pos as int, s) by {
                    if sample_at(b@, pos as int, s) {
                        lemma_sample_at_pieces(b@, pos as int, s);
                        assert(sdigits_at(b@, e1 as int, s.x));
                    }
                }
            }
            return None;
        },
        Some(p) => p,
    };
    if x < -SAMPLE_BOUND || x > SAMPLE_BOUND {
        proof {
            assert forall|s: Sample| !sample_at(b@, pos as int, s) by {
                if sample_at(b@, pos as int, s) {
                    lemma_sample_at_pieces(b@, pos as int, s);
                    assert(sdigits_at(b@, e1 as int, s.x));
                    assert(x == s.x);
                }
            }
        }
        return None;
    }
    let e3 = match match_lit(b, e2, ",\"y\":") {
        None => {
            proof {
                assert forall|s: Sample| !sample_at(b@, pos as int, s) by {
                    if sample_at(b@, pos as int, s) {
                        lemma_sample_at_pieces(b@, pos as int, s);
                        assert(sdigits_at(b@, e1 as int, s.x));
                        assert(x == s.x);
                    }
                }
            }
            return None;
        },
        Some(e) => e,
    };
    let (y, e4) = match parse_i64(b, e3) {
        None => {
            proof {
                assert forall|s: Sample| !sample_at(b@, pos as int, s) by {
                    if sample_at(b@, pos as int, s) {
                        lemma_sample_at_pieces(b@, pos as int, s);
                        assert(sdigits_at(b@, e1 as int, s.x));
                        assert(x == s.x);
                        assert(sdigits_at(b@, e3 as int, s.y));
                    }
                }
            }
            return None;
        },
        Some(p) => p,
    };
    if y < -SAMPLE_BOUND || y > SAMPLE_BOUND {
        proof {
            assert forall|s: Sample| !sample_at(b@, pos as int, s) by {
                if sample_at(b@, pos as int, s) {
                    lemma_sample_at_pieces(b@, pos as int, s);
                    assert(sdigits_at(b@, e1 as int, s.x));
                    assert(x == s.x);
                    assert(sdigits_at(b@, e3 as int, s.y));
                    assert(y == s.y);
                }
            }
        }
        return None;
    }
    let e5 = match match_lit(b, e4, ",\"z\":") {
        None => {
            proof {
                assert forall|s: Sample| !sample_at(b@, pos as int, s) by {
                    if sample_at(b@, pos as int, s) {
                        lemma_sample_at_pieces(b@, pos as int, s);
                        assert(sdigits_at(b@, e1 as int, s.x));
                        assert(x == s.x);
                        assert(sdigits_at(b@, e3 as int, s.y));
                        assert(y == s.y);
                    }
                }
            }
            return None;
        },
        Some(e) => e,
    };
    let (z, e6) = match parse_i64(b, e5) {
        None => {
            proof {
                assert forall|s: Sample| !sample_at(b@, pos as int, s) by {
                    if sample_at(b@, pos as int, s) {
                        lemma_sample_at_pieces(b@, pos as int, s);
                        assert(sdigits_at(b@, e1 as int, s.x));
                        assert(x == s.x);
                        assert(sdigits_at(b@, e3 as int, s.y));
                        assert(y == s.y);
                        assert(sdigits_at(b@, e5 as int, s.z));
                    }
                }
            }
            return None;
        },
        Some(p) => p,
    };
    if z < -SAMPLE_BOUND || z > SAMPLE_BOUND {
        proof {
            assert forall|s: Sample| !sample_at(b@, pos as int, s) by {
                if sample_at(b@, pos as int, s) {
                    lemma_sample_at_pieces(b@, pos as int, s);
                    assert(sdigits_at(b@, e1 as int, s.x));
                    assert(x == s.x);
                    assert(sdigits_at(b@, e3 as int, s.y));
                    assert(y == s.y);
                    assert(sdigits_at(b@, e5 as int, s.z));
                    assert(z == s.z);
                }
            }
        }
        return None;
    }
    let e7 = match match_lit(b, e6, "}") {
        None => {
            proof {
                assert forall|s: Sample| !sample_at(b@, pos as int, s) by {
                    if sample_at(b@, pos as int, s) {
                        lemma_sample_at_pieces(b@, pos as int, s);
                        assert(sdigits_at(b@, e1 as int, s.x));
                        assert(x == s.x);
                        assert(sdigits_at(b@, e3 as int, s.y));
                        assert(y == s.y);
                        assert(sdigits_at(b@, e5 as int, s.z));
                        assert(z == s.z);
                    }
                }
            }
            return None;
        },
        Some(e) => e,
    };
    let s = Sample { x, y, z };
    proof {
        lemma_subrange_chain(b@, pos as int, e1 as int, e2 as int);
        lemma_subrange_chain(b@, pos as int, e2 as int, e3 as int);
        lemma_subrange_chain(b@, pos as int, e3 as int, e4 as int);
        lemma_subrange_chain(b@, pos as int, e4 as int, e5 as int);
        lemma_subrange_chain(b@, pos as int, e5 as int, e6 as int);
        lemma_subrange_chain(b@, pos as int, e6 as int, e7 as int);
        assert(b@.subrange(pos as int, e7 as int) =~= spec_sample_json(s));
        assert(e7 == pos + spec_sample_json(s).len());
        assert forall|s2: Sample| #[trigger] sample_at(b@, pos as int, s2) implies s2 == s && (pos
            + spec_sample_json(s2).len()) as usize == e7 by {
            lemma_sample_at_pieces(b@, pos as int, s2);
            assert(sdigits_at(b@, e1 as int, s2.x));
            assert(x == s2.x);
            assert(sdigits_at(b@, e3 as int, s2.y));
            assert(y == s2.y);
            assert(sdigits_at(b@, e5 as int, s2.z));
            assert(z == s2.z);
        }
    }
    Some((s, e7))
}

/// The canonical remainder of a non-empty reading list: the readings,
/// comma separated, then the closing bracket and brace.
pub open spec fn spec_samples_tail(w: Seq<Sample>) -> Seq<u8>
    recommends
        w.len() >= 1,
    decreases w.len(),
{
    if w.len() <= 1 {
        (if w.len() == 1 {
            spec_sample_json(w[0])
        } else {
            Seq::<u8>::empty()
        }) + "]}".spec_bytes()
    } else {
        spec_sample_json(w[0]) + ",".spec_bytes() + spec_samples_tail(w.drop_first())
    }
}

/// The reading list's encoding unfolds from the front as well.
proof fn lemma_samples_json_front(w: Seq<Sample>)
    requires
        w.len() >= 2,
    ensures
        spec_samples_json(w) == spec_sample_json(w[0]) + ",".spec_bytes() + spec_samples_json(
            w.drop_first(),
        ),
    decreases w.len(),
{
    if w.len() == 2 {
        assert(w.drop_last() =~= seq![w[0]]);
        assert(w.drop_first() =~= seq![w[1]]);
        assert(w.last() == w[1]);
        assert(seq![w[0]][0] == w[0]);
        assert(seq![w[1]][0] == w[1]);
        assert(spec_samples_json(w) == spec_samples_json(w.drop_last()) + ",".spec_bytes()
            + spec_sample_json(w.last()));
        assert(spec_samples_json(w.drop_last()) == spec_sample_json(w[0]));
        assert(spec_samples_json(w.drop_first()) == spec_sample_json(w[1]));
    } else {
        let d = w.drop_last();
        lemma_samples_json_front(d);
        assert(w.drop_first().drop_last() =~= d.drop_first());
        assert(w.drop_first().len() >= 2);
        assert(w.drop_first().last() == w.last());
        assert(w[0] == d[0]);
        assert(spec_samples_json(w.drop_first()) == spec_samples_json(d.drop_first())
            + ",".spec_bytes() + spec_sample_json(w.last()));
        let sj0 = spec_sample_json(w[0]);
        let c = ",".spec_bytes();
        let mid = spec_samples_json(d.drop_first());
        let sjl = spec_sample_json(w.last());
        assert(spec_samples_json(w) == ((sj0 + c) + mid) + c + sjl);
        vstd::seq_lib::lemma_concat_associative(sj0 + c, mid, c);
        vstd::seq_lib::lemma_concat_associative(sj0 + c, mid + c, sjl);
        assert(spec_samples_json(w) == (sj0 + c) + ((mid + c) + sjl));
    }
}

/// The list encoding plus its closing is exactly the list remainder.
proof fn lemma_samples_tail_equiv(w: Seq<Sample>)
    ensures
        spec_samples_json(w) + "]}".spec_bytes() == spec_samples_tail(w),
    decreases w.len(),
{
    if w.len() <= 1 {
    } else {
        lemma_samples_json_front(w);
        lemma_samples_tail_equiv(w.drop_first());
        let sj0 = spec_sample_json(w[0]);
        let c = ",".spec_bytes();
        let rest = spec_samples_json(w.drop_first());
        vstd::seq_lib::lemma_concat_associative(sj0 + c, rest, "]}".spec_bytes());
        assert(spec_samples_json(w) + "]}".spec_bytes() == (sj0 + c) + (rest
            + "]}".spec_bytes()));
    }
}

/// Where the pieces of a list remainder stand.
proof fn lemma_samples_tail_pieces(b: Seq<u8>, pos: int, w: Seq<Sample>)
    requires
        w.len() >= 1,
        samples_wf(w),
        0 <= pos <= b.len(),
        b.subrange(pos, b.len() as int) == spec_samples_tail(w),
    ensures
        ({
            let p1 = pos + spec_sample_json(w[0]).len();
            &&& sample_at(b, pos, w[0])
            &&& (w.len() == 1 ==> p1 + 2 == b.len() && b.subrange(p1, p1 + 2) == "]}".spec_bytes())
            &&& (w.len() >= 2 ==> {
                &&& p1 + 1 <= b.len()
                &&& b.subrange(p1, p1 + 1) == ",".spec_bytes()
                &&& b.subrange(p1 + 1, b.len() as int) == spec_samples_tail(w.drop_first())
                &&& samples_wf(w.drop_first())
            })
        }),
{
    lemma_list_lit_heads();
    let t = spec_samples_tail(w);
    let sj = spec_sample_json(w[0]);
    assert(b.subrange(pos, b.len() as int).len() == b.len() - pos);
    assert(sample_wf(w[0]));
    if w.len() == 1 {
        assert(t == sj + "]}".spec_bytes());
        lemma_cat_layout(sj, "]}".spec_bytes());
        lemma_piece_at(b, pos, t, 0, sj);
        lemma_piece_at(b, pos, t, sj.len() as int, "]}".spec_bytes());
    } else {
        assert(t == sj + ",".spec_bytes() + spec_samples_tail(w.drop_first()));
        let a1 = sj + ",".spec_bytes();
        let rest = spec_samples_tail(w.drop_first());
        lemma_cat_layout(a1, rest);
        lemma_cat_layout(sj, ",".spec_bytes());
        lemma_piece_at(b, pos, t, 0, a1);
        lemma_piece_at(b, pos, t, a1.len() as int, rest);
        lemma_piece_at(b, pos, a1, 0, sj);
        lemma_piece_at(b, pos, a1, sj.len() as int, ",".spec_bytes());
        assert(pos + a1.len() + rest.len() == b.len());
        assert(b.subrange(pos + a1.len(), b.len() as int) == rest);
        assert(samples_wf(w.drop_first())) by {
            assert(forall|i: int|
                0 <= i < w.drop_first().len() ==> #[trigger] w.drop_first()[i] == w[i + 1]);
        }
    }
}

/// Parses the remainder of a non-empty reading list: one reading, then
/// either the closing or a comma and the rest, consuming the buffer to
/// its end.  Exactly the canonical remainders within the series cap are
/// accepted.
fn parse_sample_list(b: &[u8], pos: usize, out: &mut Vec<Sample>) -> (r: Result<usize, ParseError>)
    requires
        pos <= b@.len(),
        samples_wf(old(out)@),
        old(out)@.len() <= SERIES_CAP,
    ensures
        r matches Ok(end) ==> ({
            let w2 = final(out)@.skip(old(out)@.len() as int);
            &&& final(out)@ == old(out)@ + w2
            &&& w2.len() >= 1
            &&& samples_wf(final(out)@)
            &&& final(out)@.len() <= SERIES_CAP
            &&& end == b@.len()
            &&& b@.subrange(pos as int, b@.len() as int) == spec_samples_tail(w2)
        }),
        forall|w2: Seq<Sample>|
            w2.len() >= 1 && samples_wf(w2) && old(out)@.len() + w2.len() <= SERIES_CAP
                && #[trigger] spec_samples_tail(w2) == b@.subrange(pos as int, b@.len() as int)
                ==> r is Ok,
    decreases b@.len() - pos,
{
    let ghost out0 = out@;
    proof {
        lemma_list_lit_heads();
    }
    let (s, e1) = match parse_sample(b, pos) {
        None => {
            proof {
                assert forall|w2: Seq<Sample>|
                    !(w2.len() >= 1 && samples_wf(w2) && out0.len() + w2.len() <= SERIES_CAP
                        && #[trigger] spec_samples_tail(w2) == b@.subrange(
                        pos as int,
                        b@.len() as int,
                    )) by {
                    if w2.len() >= 1 && samples_wf(w2) && spec_samples_tail(w2) == b@.subrange(
                        pos as int,
                        b@.len() as int,
                    ) {
                        lemma_samples_tail_pieces(b@, pos as int, w2);
                    }
                }
            }
            return Err(ParseError::Malformed);
        },
        Some(p) => p,
    };
    if out.len() >= SERIES_CAP {
        return Err(ParseError::Malformed);
    }
    out.push(s);
    proof {
        assert(samples_wf(out@)) by {
            assert(forall|i: int| 0 <= i < out0.len() ==> #[trigger] out@[i] == out0[i]);
            assert(out@[out0.len() as int] == s);
        }
    }
    match match_lit(b, e1, "]}") {
        Some(e2) => {
            if e2 == b.len() {
                proof {
                    lemma_subrange_chain(b@, pos as int, e1 as int, e2 as int);
                    assert(out@.skip(out0.len() as int) =~= seq![s]);
                    assert(seq![s][0] == s);
                    assert(spec_samples_tail(seq![s]) == spec_sample_json(s) + "]}".spec_bytes());
                    assert(b@.subrange(pos as int, b@.len() as int) == spec_sample_json(s)
                        + "]}".spec_bytes());
                    assert(out@ =~= out0 + seq![s]);
                }
                Ok(e2)
            } else {
                proof {
                    assert forall|w2: Seq<Sample>|
                        !(w2.len() >= 1 && samples_wf(w2) && out0.len() + w2.len() <= SERIES_CAP
                            && #[trigger] spec_samples_tail(w2) == b@.subrange(
                            pos as int,
                            b@.len() as int,
                        )) by {
                        if w2.len() >= 1 && samples_wf(w2) && spec_samples_tail(w2) == b@.subrange(
                            pos as int,
                            b@.len() as int,
                        ) {
                            lemma_samples_tail_pieces(b@, pos as int, w2);
                            assert(sample_at(b@, pos as int, w2[0]));
                            assert(e1 == pos + spec_sample_json(w2[0]).len());
                            if w2.len() >= 2 {
                                assert(b@.subrange(e1 as int, e1 + 1)[0] == b@[e1 as int]);
                                assert(b@.subrange(e1 as int, e1 + 2)[0] == b@[e1 as int]);
                            }
                        }
                    }
                }
                Err(ParseError::Malformed)
            }
        },
        None => {
            match match_lit(b, e1, ",") {
                Some(e2) => {
                    let r2 = parse_sample_list(b, e2, out);
                    let ghost out1 = out0.push(s);
                    match r2 {
                        Ok(end) => {
                            proof {
                                let w3 = out@.skip(out1.len() as int);
                                let w2 = out@.skip(out0.len() as int);
                                assert(w2 =~= seq![s] + w3);
                                assert(w2.len() >= 2);
                                assert(w2[0] == s);
                                assert(w2.drop_first() =~= w3);
                                assert(spec_samples_tail(w2) == spec_sample_json(s)
                                    + ",".spec_bytes() + spec_samples_tail(w3));
                                lemma_subrange_chain(b@, pos as int, e1 as int, e2 as int);
                                lemma_subrange_chain(b@, pos as int, e2 as int, b@.len() as int);
                                assert(b@.subrange(pos as int, b@.len() as int) =~= spec_sample_json(
                                    s,
                                ) + ",".spec_bytes() + spec_samples_tail(w3));
                                assert(out@ =~= out0 + w2);
                            }
                            Ok(end)
                        },
                        Err(p) => {
                            proof {
                                assert forall|w2: Seq<Sample>|
                                    !(w2.len() >= 1 && samples_wf(w2) && out0.len() + w2.len()
                                        <= SERIES_CAP && #[trigger] spec_samples_tail(w2)
                                        == b@.subrange(pos as int, b@.len() as int)) by {
                                    if w2.len() >= 1 && samples_wf(w2) && out0.len() + w2.len()
                                        <= SERIES_CAP && spec_samples_tail(w2) == b@.subrange(
                                        pos as int,
                                        b@.len() as int,
                                    ) {
                                        lemma_samples_tail_pieces(b@, pos as int, w2);
                                        assert(sample_at(b@, pos as int, w2[0]));
                                        assert(e1 == pos + spec_sample_json(w2[0]).len());
                                        if w2.len() == 1 {
                                            assert(false);
                                        } else {
                                            assert(e2 == e1 + 1);
                                            assert(spec_samples_tail(w2.drop_first())
                                                == b@.subrange(e2 as int, b@.len() as int));
                                            assert(out1.len() + w2.drop_first().len()
                                                <= SERIES_CAP);
                                        }
                                    }
                                }
                            }
                            Err(p)
                        },
                    }
                },
                None => {
                    proof {
                        assert forall|w2: Seq<Sample>|
                            !(w2.len() >= 1 && samples_wf(w2) && out0.len() + w2.len()
                                <= SERIES_CAP && #[trigger] spec_samples_tail(w2) == b@.subrange(
                                pos as int,
                                b@.len() as int,
                            )) by {
                            if w2.len() >= 1 && samples_wf(w2) && spec_samples_tail(w2)
                                == b@.subrange(pos as int, b@.len() as int) {
                                lemma_samples_tail_pieces(b@, pos as int, w2);
                                assert(sample_at(b@, pos as int, w2[0]));
                                assert(e1 == pos + spec_sample_json(w2[0]).len());
                            }
                        }
                    }
                    Err(ParseError::Malformed)
                },
            }
        },
    }
}

/// Where the pieces of a sensor-batch message stand.
proof fn lemma_batch_json_pieces(b: Seq<u8>, id: u64, w: Seq<Sample>)
    requires
        b == spec_batch_json(id, w),
    ensures
        ({
            let p1 = "{\"batch_id\":".spec_bytes().len() as int;
            let p2 = p1 + digits_of(id as int).len();
            let p3 = p2 + ",\"batch\":[".spec_bytes().len();
            &&& p3 <= b.len()
            &&& b.subrange(0, p1) == "{\"batch_id\":".spec_bytes()
            &&& digits_at(b, p1, id)
            &&& b.subrange(p2, p3) == ",\"batch\":[".spec_bytes()
            &&& b.subrange(p3, b.len() as int) == spec_samples_json(w) + "]}".spec_bytes()
        }),
{
    lemma_batch_separator_head();
    lemma_digits_are_digits(id as int);
    let p = "{\"batch_id\":".spec_bytes();
    let d = digits_of(id as int);
    let sep = ",\"batch\":[".spec_bytes();
    let ssj = spec_samples_json(w);
    let a1 = p + d;
    let a2 = a1 + sep;
    let a3 = a2 + ssj;
    assert(b == a3 + "]}".spec_bytes());
    assert(b.subrange(0, b.len() as int) =~= b);
    lemma_cat_layout(a3, "]}".spec_bytes());
    lemma_piece_at(b, 0, b, 0, a3);
    lemma_piece_at(b, 0, b, a3.len() as int, "]}".spec_bytes());
    lemma_cat_layout(a2, ssj);
    lemma_piece_at(b, 0, a3, 0, a2);
    lemma_piece_at(b, 0, a3, a2.len() as int, ssj);
    lemma_cat_layout(a1, sep);
    lemma_piece_at(b, 0, a2, 0, a1);
    lemma_piece_at(b, 0, a2, a1.len() as int, sep);
    lemma_cat_layout(p, d);
    lemma_piece_at(b, 0, a1, 0, p);
    lemma_piece_at(b, 0, a1, p.len() as int, d);
    assert(digits_at(b, p.len() as int, id)) by {
        assert(b.subrange(a1.len() as int, a1.len() + sep.len() as int)[0] == b[a1.len() as int]);
        assert(!is_digit(b[a1.len() as int]));
    }
    lemma_subrange_chain(b, a2.len() as int, a3.len() as int, b.len() as int);
}

/// Parses a canonical sensor-batch message.  Anything accepted is
/// exactly the canonical encoding of the returned message, with every
/// reading within the sample bound and the batch within the series cap;
/// and every such canonical message is accepted.
#[verifier::rlimit(80)]
pub fn parse_batch_message(b: &[u8]) -> (r: Result<SensorBatchMessage, ParseError>)
    ensures
        r matches Ok(m) ==> {
            &&& b@ == spec_batch_json(m.batch_id, m.samples@)
            &&& samples_wf(m.samples@)
            &&& m.samples@.len() <= SERIES_CAP
        },
        forall|id: u64, w: Seq<Sample>|
            b@ == #[trigger] spec_batch_json(id, w) && samples_wf(w) && w.len() <= SERIES_CAP
                ==> r is Ok,
{
    let e0 = match match_lit(b, 0, "{\"batch_id\":") {
        None => {
            proof {
                assert forall|id: u64, w: Seq<Sample>|
                    !(b@ == #[trigger] spec_batch_json(id, w) && samples_wf(w) && w.len()
                        <= SERIES_CAP) by {
                    if b@ == spec_batch_json(id, w) {
                        lemma_batch_json_pieces(b@, id, w);
                    }
                }
            }
            return Err(ParseError::Malformed);
        },
        Some(e) => e,
    };
    let (batch_id, e1) = match parse_u64(b, e0) {
        None => {
            proof {
                assert forall|id: u64, w: Seq<Sample>|
                    !(b@ == #[trigger] spec_batch_json(id, w) && samples_wf(w) && w.len()
                        <= SERIES_CAP) by {
                    if b@ == spec_batch_json(id, w) {
                        lemma_batch_json_pieces(b@, id, w);
                        assert(digits_at(b@, e0 as int, id));
                    }
                }
            }
            return Err(ParseError::Malformed);
        },
        Some(p) => p,
    };
    let e2 = match match_lit(b, e1, ",\"batch\":[") {
        None => {
            proof {
                assert forall|id: u64, w: Seq<Sample>|
                    !(b@ == #[trigger] spec_batch_json(id, w) && samples_wf(w) && w.len()
                        <= SERIES_CAP) by {
                    if b@ == spec_batch_json(id, w) {
                        lemma_batch_json_pieces(b@, id, w);
                        assert(digits_at(b@, e0 as int, id));
                        assert(batch_id == id);
                    }
                }
            }
            return Err(ParseError::Malformed);
        },
        Some(e) => e,
    };
    let ghost pfx = "{\"batch_id\":".spec_bytes() + digits_of(batch_id as int)
        + ",\"batch\":[".spec_bytes();
    proof {
        lemma_subrange_chain(b@, 0, e0 as int, e1 as int);
        lemma_subrange_chain(b@, 0, e1 as int, e2 as int);
        assert(b@.subrange(0, e2 as int) =~= pfx);
        lemma_subrange_chain(b@, 0, e2 as int, b@.len() as int);
        lemma_sample_lit_heads();
        lemma_list_lit_heads();
    }
    let mut samples: Vec<Sample> = Vec::new();
    match match_lit(b, e2, "]}") {
        Some(e3) => {
            if e3 == b.len() {
                proof {
                    lemma_subrange_chain(b@, 0, e2 as int, e3 as int);
                    assert(b@.subrange(0, e3 as int) =~= b@);
                    assert(b@ =~= spec_batch_json(batch_id, samples@));
                }
                return Ok(SensorBatchMessage { batch_id, samples });
            } else {
                proof {
                    assert forall|id: u64, w: Seq<Sample>|
                        !(b@ == #[trigger] spec_batch_json(id, w) && samples_wf(w) && w.len()
                            <= SERIES_CAP) by {
                        if b@ == spec_batch_json(id, w) && samples_wf(w) {
                            lemma_batch_json_pieces(b@, id, w);
                            assert(digits_at(b@, e0 as int, id));
                            assert(batch_id == id);
                            if w.len() == 0 {
                                assert(b@.subrange(e2 as int, b@.len() as int)
                                    =~= "]}".spec_bytes());
                                assert(b@.len() - e2 == 2);
                            } else {
                                lemma_samples_tail_equiv(w);
                                lemma_samples_tail_pieces(b@, e2 as int, w);
                                assert(sample_at(b@, e2 as int, w[0]));
                                assert(b@.subrange(e2 as int, e2
                                    + spec_sample_json(w[0]).len() as int)[0] == b@[e2 as int]);
                                assert(b@.subrange(e2 as int, e2 + 2)[0] == b@[e2 as int]);
                            }
                        }
                    }
                }
                return Err(ParseError::Malformed);
            }
        },
        None => {},
    }
    match parse_sample_list(b, e2, &mut samples) {
        Ok(_end) => {
            proof {
                let w2 = samples@.skip(0);
                assert(w2 =~= samples@);
                lemma_samples_tail_equiv(samples@);
                assert(b@.subrange(e2 as int, b@.len() as int) == spec_samples_json(samples@)
                    + "]}".spec_bytes());
                assert(b@.subrange(0, b@.len() as int) =~= b@);
                assert(b@ == pfx + (spec_samples_json(samples@) + "]}".spec_bytes()));
                vstd::seq_lib::lemma_concat_associative(
                    pfx,
                    spec_samples_json(samples@),
                    "]}".spec_bytes(),
                );
                assert(b@ =~= pfx + spec_samples_json(samples@) + "]}".spec_bytes());
                assert(pfx + spec_samples_json(samples@) + "]}".spec_bytes() =~= spec_batch_json(
                    batch_id,
                    samples@,
                ));
                assert(b@ == spec_batch_json(batch_id, samples@));
            }
            Ok(SensorBatchMessage { batch_id, samples })
        },
        Err(p) => {
            proof {
                assert forall|id: u64, w: Seq<Sample>|
                    !(b@ == #[trigger] spec_batch_json(id, w) && samples_wf(w) && w.len()
                        <= SERIES_CAP) by {
                    if b@ == spec_batch_json(id, w) && samples_wf(w) && w.len() <= SERIES_CAP {
                        lemma_batch_json_pieces(b@, id, w);
                        assert(digits_at(b@, e0 as int, id));
                        assert(batch_id == id);
                        lemma_samples_tail_equiv(w);
                        if w.len() == 0 {
                            assert(b@.subrange(e2 as int, b@.len() as int) =~= "]}".spec_bytes());
                            assert(e2 + 2 <= b@.len());
                        } else {
                            assert(spec_samples_tail(w) == b@.subrange(e2 as int, b@.len() as int));
                        }
                    }
                }
            }
            Err(p)
        },
    }
}

/// One inbound feature vector, correlated by its batch identifier.
#[derive(Clone, Copy, Debug)]
pub struct FeatureMessage {
    pub batch_id: u64,
    pub features: FeatureVector,
}

/// One outbound classification, correlated by its batch identifier.
#[derive(Clone, Copy, Debug, PartialEq, Eq, Structural)]
pub struct ResultMessage {
    pub batch_id: u64,
    pub label: Label,
}

/// Every statistic can be written on the wire (the one unwritable value
/// is the smallest machine integer, which no bounded series produces).
pub open spec fn stats_sendable(st: SeriesStats) -> bool {
    &&& st.mean != i64::MIN
    &&& st.std_dev != i64::MIN
    &&& st.min != i64::MIN
    &&& st.max != i64::MIN
    &&& st.coeff_var != i64::MIN
    &&& st.p25 != i64::MIN
    &&& st.p75 != i64::MIN
}

/// Every statistic of every series of the vector can be written.
pub open spec fn features_sendable(fv: FeatureVector) -> bool {
    &&& stats_sendable(fv.mag)
    &&& stats_sendable(fv.x)
    &&& stats_sendable(fv.y)
    &&& stats_sendable(fv.z)
}

/// The canonical encoding of one series' seven named statistics.
#[verifier::opaque]
pub open spec fn spec_stats_fields(
    n1: Seq<u8>,
    n2: Seq<u8>,
    n3: Seq<u8>,
    n4: Seq<u8>,
    n5: Seq<u8>,
    n6: Seq<u8>,
    n7: Seq<u8>,
    st: SeriesStats,
) -> Seq<u8> {
    n1 + sdigits_of(st.mean as int) + n2 + sdigits_of(st.std_dev as int) + n3 + sdigits_of(
        st.min as int,
    ) + n4 + sdigits_of(st.max as int) + n5 + sdigits_of(st.coeff_var as int) + n6 + sdigits_of(
        st.p25 as int,
    ) + n7 + sdigits_of(st.p75 as int)
}

/// The canonical encoding of a feature message: the batch identifier and
/// the 28 named statistics, four series in fixed order.
pub open spec fn spec_feature_json(batch_id: u64, fv: FeatureVector) -> Seq<u8> {
    "{\"batch_id\":".spec_bytes() + digits_of(batch_id as int) + ",\"features\":{".spec_bytes()
        + mag_fields(fv) + x_fields(fv) + y_fields(fv) + z_fields(fv) + "}}".spec_bytes()
}

/// Appends one series' seven named statistics.
fn push_stats_fields(
    n1: &str,
    n2: &str,
    n3: &str,
    n4: &str,
    n5: &str,
    n6: &str,
    n7: &str,
    st: &SeriesStats,
    out: &mut Vec<u8>,
)
    requires
        stats_sendable(*st),
    ensures
        final(out)@ == old(out)@ + spec_stats_fields(
            n1.spec_bytes(),
            n2.spec_bytes(),
            n3.spec_bytes(),
            n4.spec_bytes(),
            n5.spec_bytes(),
            n6.spec_bytes(),
            n7.spec_bytes(),
            *st,
        ),
{
    push_lit(n1, out);
    push_sdigits(st.mean, out);
    push_lit(n2, out);
    push_sdigits(st.std_dev, out);
    push_lit(n3, out);
    push_sdigits(st.min, out);
    push_lit(n4, out);
    push_sdigits(st.max, out);
    push_lit(n5, out);
    push_sdigits(st.coeff_var, out);
    push_lit(n6, out);
    push_sdigits(st.p25, out);
    push_lit(n7, out);
    push_sdigits(st.p75, out);
    proof {
        reveal(spec_stats_fields);
        assert(out@ =~= old(out)@ + spec_stats_fields(
            n1.spec_bytes(),
            n2.spec_bytes(),
            n3.spec_bytes(),
            n4.spec_bytes(),
            n5.spec_bytes(),
            n6.spec_bytes(),
            n7.spec_bytes(),
            *st,
        ));
    }
}

/// Builds the canonical feature message.
pub fn build_feature_message(batch_id: u64, fv: &FeatureVector) -> (r: Vec<u8>)
    requires
        features_sendable(*fv),
    ensures
        r@ == spec_feature_json(batch_id, *fv),
{
    let mut out: Vec<u8> = Vec::new();
    push_lit("{\"batch_id\":", &mut out);
    push_digits(batch_id, &mut out);
    push_lit(",\"features\":{", &mut out);
    push_stats_fields(
        "\"mean_mag\":",
        ",\"std_dev_mag\":",
        ",\"min_mag\":",
        ",\"max_mag\":",
        ",\"coeff_var_mag\":",
        ",\"percentile_25_mag\":",
        ",\"percentile_75_mag\":",
        &fv.mag,
        &mut out,
    );
    push_stats_fields(
        ",\"mean_x\":",
        ",\"std_dev_x\":",
        ",\"min_x\":",
        ",\"max_x\":",
        ",\"coeff_var_x\":",
        ",\"percentile_25_x\":",
        ",\"percentile_75_x\":",
        &fv.x,
        &mut out,
    );
    push_stats_fields(
        ",\"mean_y\":",
        ",\"std_dev_y\":",
        ",\"min_y\":",
        ",\"max_y\":",
        ",\"coeff_var_y\":",
        ",\"percentile_25_y\":",
        ",\"percentile_75_y\":",
        &fv.y,
        &mut out,
    );
    push_stats_fields(
        ",\"mean_z\":",
        ",\"std_dev_z\":",
        ",\"min_z\":",
        ",\"max_z\":",
        ",\"coeff_var_z\":",
        ",\"percentile_25_z\":",
        ",\"percentile_75_z\":",
        &fv.z,
        &mut out,
    );
    push_lit("}}", &mut out);
    proof {
        reveal(mag_fields_st);
        reveal(x_fields_st);
        reveal(y_fields_st);
        reveal(z_fields_st);
        assert(out@ =~= spec_feature_json(batch_id, *fv));
    }
    out
}

/// One series' seven named statistics stand exactly at `pos`, closed
/// by a following non-digit byte or the buffer's end.
pub open spec fn stats_fields_at(
    b: Seq<u8>,
    pos: int,
    n1: Seq<u8>,
    n2: Seq<u8>,
    n3: Seq<u8>,
    n4: Seq<u8>,
    n5: Seq<u8>,
    n6: Seq<u8>,
    n7: Seq<u8>,
    st: SeriesStats,
) -> bool {
    let g = spec_stats_fields(n1, n2, n3, n4, n5, n6, n7, st);
    &&& 0 <= pos
    &&& pos + g.len() <= b.len()
    &&& b.subrange(pos, pos + g.len() as int) == g
    &&& stats_sendable(st)
    &&& (pos + g.len() == b.len() || !is_digit(b[pos + g.len()]))
}

/// Where each piece of a series' statistics stands.
#[verifier::rlimit(100)]
#[verifier::spinoff_prover]
proof fn lemma_stats_fields_at_pieces(
    b: Seq<u8>,
    pos: int,
    n1: Seq<u8>,
    n2: Seq<u8>,
    n3: Seq<u8>,
    n4: Seq<u8>,
    n5: Seq<u8>,
    n6: Seq<u8>,
    n7: Seq<u8>,
    st: SeriesStats,
)
    requires
        stats_fields_at(b, pos, n1, n2, n3, n4, n5, n6, n7, st),
        n2.len() >= 1,
        !is_digit(n2[0]),
        n3.len() >= 1,
        !is_digit(n3[0]),
        n4.len() >= 1,
        !is_digit(n4[0]),
        n5.len() >= 1,
        !is_digit(n5[0]),
        n6.len() >= 1,
        !is_digit(n6[0]),
        n7.len() >= 1,
        !is_digit(n7[0]),
    ensures
        ({
            let q1 = pos + n1.len();
            let q2 = q1 + sdigits_of(st.mean as int).len();
            let q3 = q2 + n2.len();
            let q4 = q3 + sdigits_of(st.std_dev as int).len();
            let q5 = q4 + n3.len();
            let q6 = q5 + sdigits_of(st.min as int).len();
            let q7 = q6 + n4.len();
            let q8 = q7 + sdigits_of(st.max as int).len();
            let q9 = q8 + n5.len();
            let q10 = q9 + sdigits_of(st.coeff_var as int).len();
            let q11 = q10 + n6.len();
            let q12 = q11 + sdigits_of(st.p25 as int).len();
            let q13 = q12 + n7.len();
            let q14 = q13 + sdigits_of(st.p75 as int).len();
            &&& q14 == pos + spec_stats_fields(n1, n2, n3, n4, n5, n6, n7, st).len()
            &&& q14 <= b.len()
            &&& b.subrange(pos, q1) == n1
            &&& sdigits_at(b, q1, st.mean)
            &&& b.subrange(q2, q3) == n2
            &&& sdigits_at(b, q3, st.std_dev)
            &&& b.subrange(q4, q5) == n3
            &&& sdigits_at(b, q5, st.min)
            &&& b.subrange(q6, q7) == n4
            &&& sdigits_at(b, q7, st.max)
            &&& b.subrange(q8, q9) == n5
            &&& sdigits_at(b, q9, st.coeff_var)
            &&& b.subrange(q10, q11) == n6
            &&& sdigits_at(b, q11, st.p25)
            &&& b.subrange(q12, q13) == n7
            &&& sdigits_at(b, q13, st.p75)
        }),
{
    reveal(spec_stats_fields);
    let g = spec_stats_fields(n1, n2, n3, n4, n5, n6, n7, st);
    let a1 = n1 + sdigits_of(st.mean as int);
    let a2 = a1 + n2;
    let a3 = a2 + sdigits_of(st.std_dev as int);
    let a4 = a3 + n3;
    let a5 = a4 + sdigits_of(st.min as int);
    let a6 = a5 + n4;
    let a7 = a6 + sdigits_of(st.max as int);
    let a8 = a7 + n5;
    let a9 = a8 + sdigits_of(st.coeff_var as int);
    let a10 = a9 + n6;
    let a11 = a10 + sdigits_of(st.p25 as int);
    let a12 = a11 + n7;
    assert(g == a12 + sdigits_of(st.p75 as int));
    assert(b.subrange(pos, pos + g.len() as int) == g);
    lemma_cat_layout(a12, sdigits_of(st.p75 as int));
    lemma_piece_at(b, pos, g, 0, a12);
    lemma_piece_at(b, pos, g, a12.len() as int, sdigits_of(st.p75 as int));
    lemma_cat_layout(a11, n7);
    lemma_piece_at(b, pos, a12, 0, a11);
    lemma_piece_at(b, pos, a12, a11.len() as int, n7);
    lemma_cat_layout(a10, sdigits_of(st.p25 as int));
    lemma_piece_at(b, pos, a11, 0, a10);
    lemma_piece_at(b, pos, a11, a10.len() as int, sdigits_of(st.p25 as int));
    lemma_cat_layout(a9, n6);
    lemma_piece_at(b, pos, a10, 0, a9);
    lemma_piece_at(b, pos, a10, a9.len() as int, n6);
    lemma_cat_layout(a8, sdigits_of(st.coeff_var as int));
    lemma_piece_at(b, pos, a9, 0, a8);
    lemma_piece_at(b, pos, a9, a8.len() as int, sdigits_of(st.coeff_var as int));
    lemma_cat_layout(a7, n5);
    lemma_piece_at(b, pos, a8, 0, a7);
    lemma_piece_at(b, pos, a8, a7.len() as int, n5);
    lemma_cat_layout(a6, sdigits_of(st.max as int));
    lemma_piece_at(b, pos, a7, 0, a6);
    lemma_piece_at(b, pos, a7, a6.len() as int, sdigits_of(st.max as int));
    lemma_cat_layout(a5, n4);
    lemma_piece_at(b, pos, a6, 0, a5);
    lemma_piece_at(b, pos, a6, a5.len() as int, n4);
    lemma_cat_layout(a4, sdigits_of(st.min as int));
    lemma_piece_at(b, pos, a5, 0, a4);
    lemma_piece_at(b, pos, a5, a4.len() as int, sdigits_of(st.min as int));
    lemma_cat_layout(a3, n3);
    lemma_piece_at(b, pos, a4, 0, a3);
    lemma_piece_at(b, pos, a4, a3.len() as int, n3);
    lemma_cat_layout(a2, sdigits_of(st.std_dev as int));
    lemma_piece_at(b, pos, a3, 0, a2);
    lemma_piece_at(b, pos, a3, a2.len() as int, sdigits_of(st.std_dev as int));
    lemma_cat_layout(a1, n2);
    lemma_piece_at(b, pos, a2, 0, a1);
    lemma_piece_at(b, pos, a2, a1.len() as int, n2);
    lemma_cat_layout(n1, sdigits_of(st.mean as int));
    lemma_piece_at(b, pos, a1, 0, n1);
    lemma_piece_at(b, pos, a1, n1.len() as int, sdigits_of(st.mean as int));
    let q1 = pos + n1.len();
    let q2 = q1 + sdigits_of(st.mean as int).len();
    let q3 = q2 + n2.len();
    let q4 = q3 + sdigits_of(st.std_dev as int).len();
    let q5 = q4 + n3.len();
    let q6 = q5 + sdigits_of(st.min as int).len();
    let q7 = q6 + n4.len();
    let q8 = q7 + sdigits_of(st.max as int).len();
    let q9 = q8 + n5.len();
    let q10 = q9 + sdigits_of(st.coeff_var as int).len();
    let q11 = q10 + n6.len();
    let q12 = q11 + sdigits_of(st.p25 as int).len();
    let q13 = q12 + n7.len();
    let q14 = q13 + sdigits_of(st.p75 as int).len();
    assert(sdigits_at(b, q1, st.mean)) by {
        assert(b.subrange(q2, q2 + n2.len() as int)[0] == b[q2]);
        assert(!is_digit(b[q2]));
    }
    assert(sdigits_at(b, q3, st.std_dev)) by {
        assert(b.subrange(q4, q4 + n3.len() as int)[0] == b[q4]);
        assert(!is_digit(b[q4]));
    }
    assert(sdigits_at(b, q5, st.min)) by {
        assert(b.subrange(q6, q6 + n4.len() as int)[0] == b[q6]);
        assert(!is_digit(b[q6]));
    }
    assert(sdigits_at(b, q7, st.max)) by {
        assert(b.subrange(q8, q8 + n5.len() as int)[0] == b[q8]);
        assert(!is_digit(b[q8]));
    }
    assert(sdigits_at(b, q9, st.coeff_var)) by {
        assert(b.subrange(q10, q10 + n6.len() as int)[0] == b[q10]);
        assert(!is_digit(b[q10]));
    }
    assert(sdigits_at(b, q11, st.p25)) by {
        assert(b.subrange(q12, q12 + n7.len() as int)[0] == b[q12]);
        assert(!is_digit(b[q12]));
    }
    assert(sdigits_at(b, q13, st.p75)) by {
        assert(q14 == pos + g.len());
    }
}

/// Parses one series' seven named statistics: anything accepted is
/// exactly their canonical encoding, and every closed canonical
/// encoding of sendable statistics is accepted.
#[verifier::rlimit(100)]
fn parse_stats_fields(
    b: &[u8],
    pos: usize,
    n1: &str,
    n2: &str,
    n3: &str,
    n4: &str,
    n5: &str,
    n6: &str,
    n7: &str,
) -> (r: Option<(SeriesStats, usize)>)
    requires
        pos <= b@.len(),
        n2.spec_bytes().len() >= 1,
        !is_digit(n2.spec_bytes()[0]),
        n3.spec_bytes().len() >= 1,
        !is_digit(n3.spec_bytes()[0]),
        n4.spec_bytes().len() >= 1,
        !is_digit(n4.spec_bytes()[0]),
        n5.spec_bytes().len() >= 1,
        !is_digit(n5.spec_bytes()[0]),
        n6.spec_bytes().len() >= 1,
        !is_digit(n6.spec_bytes()[0]),
        n7.spec_bytes().len() >= 1,
        !is_digit(n7.spec_bytes()[0]),
    ensures
        r matches Some((st, end)) ==> {
            &&& pos <= end <= b@.len()
            &&& b@.subrange(pos as int, end as int) == spec_stats_fields(
                n1.spec_bytes(), n2.spec_bytes(), n3.spec_bytes(), n4.spec_bytes(), n5.spec_bytes(), n6.spec_bytes(), n7.spec_bytes(),
                st,
            )
            &&& stats_sendable(st)
            &&& end == pos + spec_stats_fields(n1.spec_bytes(), n2.spec_bytes(), n3.spec_bytes(), n4.spec_bytes(), n5.spec_bytes(), n6.spec_bytes(), n7.spec_bytes(), st).len()
        },
        forall|st: SeriesStats| #[trigger] stats_fields_at(
            b@,
            pos as int,
            n1.spec_bytes(), n2.spec_bytes(), n3.spec_bytes(), n4.spec_bytes(), n5.spec_bytes(), n6.spec_bytes(), n7.spec_bytes(),
            st,
        ) ==> r == Some((st, (pos + spec_stats_fields(n1.spec_bytes(), n2.spec_bytes(), n3.spec_bytes(), n4.spec_bytes(), n5.spec_bytes(), n6.spec_bytes(), n7.spec_bytes(), st).len()) as usize)),
{
    let e1 = match match_lit(b, pos, n1) {
        None => {
            proof {
                assert forall|st: SeriesStats| !stats_fields_at(
                    b@,
                    pos as int,
                    n1.spec_bytes(), n2.spec_bytes(), n3.spec_bytes(), n4.spec_bytes(), n5.spec_bytes(), n6.spec_bytes(), n7.spec_bytes(),
                    st,
                ) by {
                    if stats_fields_at(b@, pos as int, n1.spec_bytes(), n2.spec_bytes(), n3.spec_bytes(), n4.spec_bytes(), n5.spec_bytes(), n6.spec_bytes(), n7.spec_bytes(), st) {
                        lemma_stats_fields_at_pieces(b@, pos as int, n1.spec_bytes(), n2.spec_bytes(), n3.spec_bytes(), n4.spec_bytes(), n5.spec_bytes(), n6.spec_bytes(), n7.spec_bytes(), st);

                    }
                }
            }
            return None;
        },
        Some(e) => e,
    };
    let (mean, e2) = match parse_i64(b, e1) {
        None => {
            proof {
                assert forall|st: SeriesStats| !stats_fields_at(
                    b@,
                    pos as int,
                    n1.spec_bytes(), n2.spec_bytes(), n3.spec_bytes(), n4.spec_bytes(), n5.spec_bytes(), n6.spec_bytes(), n7.spec_bytes(),
                    st,
                ) by {
                    if stats_fields_at(b@, pos as int, n1.spec_bytes(), n2.spec_bytes(), n3.spec_bytes(), n4.spec_bytes(), n5.spec_bytes(), n6.spec_bytes(), n7.spec_bytes(), st) {
                        lemma_stats_fields_at_pieces(b@, pos as int, n1.spec_bytes(), n2.spec_bytes(), n3.spec_bytes(), n4.spec_bytes(), n5.spec_bytes(), n6.spec_bytes(), n7.spec_bytes(), st);
                        assert(sdigits_at(b@, e1 as int, st.mean));
                    }
                }
            }
            return None;
        },
        Some(p) => p,
    };
    let e3 = match match_lit(b, e2, n2) {
        None => {
            proof {
                assert forall|st: SeriesStats| !stats_fields_at(
                    b@,
                    pos as int,
                    n1.spec_bytes(), n2.spec_bytes(), n3.spec_bytes(), n4.spec_bytes(), n5.spec_bytes(), n6.spec_bytes(), n7.spec_bytes(),
                    st,
                ) by {
                    if stats_fields_at(b@, pos as int, n1.spec_bytes(), n2.spec_bytes(), n3.spec_bytes(), n4.spec_bytes(), n5.spec_bytes(), n6.spec_bytes(), n7.spec_bytes(), st) {
                        lemma_stats_fields_at_pieces(b@, pos as int, n1.spec_bytes(), n2.spec_bytes(), n3.spec_bytes(), n4.spec_bytes(), n5.spec_bytes(), n6.spec_bytes(), n7.spec_bytes(), st);
                        assert(sdigits_at(b@, e1 as int, st.mean));
                        assert(mean == st.mean);
                    }
                }
            }
            return None;
        },
        Some(e) => e,
    };
    let (std_dev, e4) = match parse_i64(b, e3) {
        None => {
            proof {
                assert forall|st: SeriesStats| !stats_fields_at(
                    b@,
                    pos as int,
                    n1.spec_bytes(), n2.spec_bytes(), n3.spec_bytes(), n4.spec_bytes(), n5.spec_bytes(), n6.spec_bytes(), n7.spec_bytes(),
                    st,
                ) by {
                    if stats_fields_at(b@, pos as int, n1.spec_bytes(), n2.spec_bytes(), n3.spec_bytes(), n4.spec_bytes(), n5.spec_bytes(), n6.spec_bytes(), n7.spec_bytes(), st) {
                        lemma_stats_fields_at_pieces(b@, pos as int, n1.spec_bytes(), n2.spec_bytes(), n3.spec_bytes(), n4.spec_bytes(), n5.spec_bytes(), n6.spec_bytes(), n7.spec_bytes(), st);
                        assert(sdigits_at(b@, e1 as int, st.mean));
                        assert(mean == st.mean);
                        assert(sdigits_at(b@, e3 as int, st.std_dev));
                    }
                }
            }
            return None;
        },
        Some(p) => p,
    };
    let e5 = match match_lit(b, e4, n3) {
        None => {
            proof {
                assert forall|st: SeriesStats| !stats_fields_at(
                    b@,
                    pos as int,
                    n1.spec_bytes(), n2.spec_bytes(), n3.spec_bytes(), n4.spec_bytes(), n5.spec_bytes(), n6.spec_bytes(), n7.spec_bytes(),
                    st,
                ) by {
                    if stats_fields_at(b@, pos as int, n1.spec_bytes(), n2.spec_bytes(), n3.spec_bytes(), n4.spec_bytes(), n5.spec_bytes(), n6.spec_bytes(), n7.spec_bytes(), st) {
                        lemma_stats_fields_at_pieces(b@, pos as int, n1.spec_bytes(), n2.spec_bytes(), n3.spec_bytes(), n4.spec_bytes(), n5.spec_bytes(), n6.spec_bytes(), n7.spec_bytes(), st);
                        assert(sdigits_at(b@, e1 as int, st.mean));
                        assert(mean == st.mean);
                        assert(sdigits_at(b@, e3 as int, st.std_dev));
                        assert(std_dev == st.std_dev);
                    }
                }
            }
            return None;
        },
        Some(e) => e,
    };
    let (min, e6) = match parse_i64(b, e5) {
        None => {
            proof {
                assert forall|st: SeriesStats| !stats_fields_at(
                    b@,
                    pos as int,
                    n1.spec_bytes(), n2.spec_bytes(), n3.spec_bytes(), n4.spec_bytes(), n5.spec_bytes(), n6.spec_bytes(), n7.spec_bytes(),
                    st,
                ) by {
                    if stats_fields_at(b@, pos as int, n1.spec_bytes(), n2.spec_bytes(), n3.spec_bytes(), n4.spec_bytes(), n5.spec_bytes(), n6.spec_bytes(), n7.spec_bytes(), st) {
                        lemma_stats_fields_at_pieces(b@, pos as int, n1.spec_bytes(), n2.spec_bytes(), n3.spec_bytes(), n4.spec_bytes(), n5.spec_bytes(), n6.spec_bytes(), n7.spec_bytes(), st);
                        assert(sdigits_at(b@, e1 as int, st.mean));
                        assert(mean == st.mean);
                        assert(sdigits_at(b@, e3 as int, st.std_dev));
                        assert(std_dev == st.std_dev);
                        assert(sdigits_at(b@, e5 as int, st.min));
                    }
                }
            }
            return None;
        },
        Some(p) => p,
    };
    let e7 = match match_lit(b, e6, n4) {
        None => {
            proof {
                assert forall|st: SeriesStats| !stats_fields_at(
                    b@,
                    pos as int,
                    n1.spec_bytes(), n2.spec_bytes(), n3.spec_bytes(), n4.spec_bytes(), n5.spec_bytes(), n6.spec_bytes(), n7.spec_bytes(),
                    st,
                ) by {
                    if stats_fields_at(b@, pos as int, n1.spec_bytes(), n2.spec_bytes(), n3.spec_bytes(), n4.spec_bytes(), n5.spec_bytes(), n6.spec_bytes(), n7.spec_bytes(), st) {
                        lemma_stats_fields_at_pieces(b@, pos as int, n1.spec_bytes(), n2.spec_bytes(), n3.spec_bytes(), n4.spec_bytes(), n5.spec_bytes(), n6.spec_bytes(), n7.spec_bytes(), st);
                        assert(sdigits_at(b@, e1 as int, st.mean));
                        assert(mean == st.mean);
                        assert(sdigits_at(b@, e3 as int, st.std_dev));
                        assert(std_dev == st.std_dev);
                        assert(sdigits_at(b@, e5 as int, st.min));
                        assert(min == st.min);
                    }
                }
            }
            return None;
        },
        Some(e) => e,
    };
    let (max, e8) = match parse_i64(b, e7) {
        None => {
            proof {
                assert forall|st: SeriesStats| !stats_fields_at(
                    b@,
                    pos as int,
                    n1.spec_bytes(), n2.spec_bytes(), n3.spec_bytes(), n4.spec_bytes(), n5.spec_bytes(), n6.spec_bytes(), n7.spec_bytes(),
                    st,
                ) by {
                    if stats_fields_at(b@, pos as int, n1.spec_bytes(), n2.spec_bytes(), n3.spec_bytes(), n4.spec_bytes(), n5.spec_bytes(), n6.spec_bytes(), n7.spec_bytes(), st) {
                        lemma_stats_fields_at_pieces(b@, pos as int, n1.spec_bytes(), n2.spec_bytes(), n3.spec_bytes(), n4.spec_bytes(), n5.spec_bytes(), n6.spec_bytes(), n7.spec_bytes(), st);
                        assert(sdigits_at(b@, e1 as int, st.mean));
                        assert(mean == st.mean);
                        assert(sdigits_at(b@, e3 as int, st.std_dev));
                        assert(std_dev == st.std_dev);
                        assert(sdigits_at(b@, e5 as int, st.min));
                        assert(min == st.min);
                        assert(sdigits_at(b@, e7 as int, st.max));
                    }
                }
            }
            return None;
        },
        Some(p) => p,
    };
    let e9 = match match_lit(b, e8, n5) {
        None => {
            proof {
                assert forall|st: SeriesStats| !stats_fields_at(
                    b@,
                    pos as int,
                    n1.spec_bytes(), n2.spec_bytes(), n3.spec_bytes(), n4.spec_bytes(), n5.spec_bytes(), n6.spec_bytes(), n7.spec_bytes(),
                    st,
                ) by {
                    if stats_fields_at(b@, pos as int, n1.spec_bytes(), n2.spec_bytes(), n3.spec_bytes(), n4.spec_bytes(), n5.spec_bytes(), n6.spec_bytes(), n7.spec_bytes(), st) {
                        lemma_stats_fields_at_pieces(b@, pos as int, n1.spec_bytes(), n2.spec_bytes(), n3.spec_bytes(), n4.spec_bytes(), n5.spec_bytes(), n6.spec_bytes(), n7.spec_bytes(), st);
                        assert(sdigits_at(b@, e1 as int, st.mean));
                        assert(mean == st.mean);
                        assert(sdigits_at(b@, e3 as int, st.std_dev));
                        assert(std_dev == st.std_dev);
                        assert(sdigits_at(b@, e5 as int, st.min));
                        assert(min == st.min);
                        assert(sdigits_at(b@, e7 as int, st.max));
                        assert(max == st.max);
                    }
                }
            }
            return None;
        },
        Some(e) => e,
    };
    let (coeff_var, e10) = match parse_i64(b, e9) {
        None => {
            proof {
                assert forall|st: SeriesStats| !stats_fields_at(
                    b@,
                    pos as int,
                    n1.spec_bytes(), n2.spec_bytes(), n3.spec_bytes(), n4.spec_bytes(), n5.spec_bytes(), n6.spec_bytes(), n7.spec_bytes(),
                    st,
                ) by {
                    if stats_fields_at(b@, pos as int, n1.spec_bytes(), n2.spec_bytes(), n3.spec_bytes(), n4.spec_bytes(), n5.spec_bytes(), n6.spec_bytes(), n7.spec_bytes(), st) {
                        lemma_stats_fields_at_pieces(b@, pos as int, n1.spec_bytes(), n2.spec_bytes(), n3.spec_bytes(), n4.spec_bytes(), n5.spec_bytes(), n6.spec_bytes(), n7.spec_bytes(), st);
                        assert(sdigits_at(b@, e1 as int, st.mean));
                        assert(mean == st.mean);
                        assert(sdigits_at(b@, e3 as int, st.std_dev));
                        assert(std_dev == st.std_dev);
                        assert(sdigits_at(b@, e5 as int, st.min));
                        assert(min == st.min);
                        assert(sdigits_at(b@, e7 as int, st.max));
                        assert(max == st.max);
                        assert(sdigits_at(b@, e9 as int, st.coeff_var));
                    }
                }
            }
            return None;
        },
        Some(p) => p,
    };
    let e11 = match match_lit(b, e10, n6) {
        None => {
            proof {
                assert forall|st: SeriesStats| !stats_fields_at(
                    b@,
                    pos as int,
                    n1.spec_bytes(), n2.spec_bytes(), n3.spec_bytes(), n4.spec_bytes(), n5.spec_bytes(), n6.spec_bytes(), n7.spec_bytes(),
                    st,
                ) by {
                    if stats_fields_at(b@, pos as int, n1.spec_bytes(), n2.spec_bytes(), n3.spec_bytes(), n4.spec_bytes(), n5.spec_bytes(), n6.spec_bytes(), n7.spec_bytes(), st) {
                        lemma_stats_fields_at_pieces(b@, pos as int, n1.spec_bytes(), n2.spec_bytes(), n3.spec_bytes(), n4.spec_bytes(), n5.spec_bytes(), n6.spec_bytes(), n7.spec_bytes(), st);
                        assert(sdigits_at(b@, e1 as int, st.mean));
                        assert(mean == st.mean);
                        assert(sdigits_at(b@, e3 as int, st.std_dev));
                        assert(std_dev == st.std_dev);
                        assert(sdigits_at(b@, e5 as int, st.min));
                        assert(min == st.min);
                        assert(sdigits_at(b@, e7 as int, st.max));
                        assert(max == st.max);
                        assert(sdigits_at(b@, e9 as int, st.coeff_var));
                        assert(coeff_var == st.coeff_var);
                    }
                }
            }
            return None;
        },
        Some(e) => e,
    };
    let (p25, e12) = match parse_i64(b, e11) {
        None => {
            proof {
                assert forall|st: SeriesStats| !stats_fields_at(
                    b@,
                    pos as int,
                    n1.spec_bytes(), n2.spec_bytes(), n3.spec_bytes(), n4.spec_bytes(), n5.spec_bytes(), n6.spec_bytes(), n7.spec_bytes(),
                    st,
                ) by {
                    if stats_fields_at(b@, pos as int, n1.spec_bytes(), n2.spec_bytes(), n3.spec_bytes(), n4.spec_bytes(), n5.spec_bytes(), n6.spec_bytes(), n7.spec_bytes(), st) {
                        lemma_stats_fields_at_pieces(b@, pos as int, n1.spec_bytes(), n2.spec_bytes(), n3.spec_bytes(), n4.spec_bytes(), n5.spec_bytes(), n6.spec_bytes(), n7.spec_bytes(), st);
                        assert(sdigits_at(b@, e1 as int, st.mean));
                        assert(mean == st.mean);
                        assert(sdigits_at(b@, e3 as int, st.std_dev));
                        assert(std_dev == st.std_dev);
                        assert(sdigits_at(b@, e5 as int, st.min));
                        assert(min == st.min);
                        assert(sdigits_at(b@, e7 as int, st.max));
                        assert(max == st.max);
                        assert(sdigits_at(b@, e9 as int, st.coeff_var));
                        assert(coeff_var == st.coeff_var);
                        assert(sdigits_at(b@, e11 as int, st.p25));
                    }
                }
            }
            return None;
        },
        Some(p) => p,
    };
    let e13 = match match_lit(b, e12, n7) {
        None => {
            proof {
                assert forall|st: SeriesStats| !stats_fields_at(
                    b@,
                    pos as int,
                    n1.spec_bytes(), n2.spec_bytes(), n3.spec_bytes(), n4.spec_bytes(), n5.spec_bytes(), n6.spec_bytes(), n7.spec_bytes(),
                    st,
                ) by {
                    if stats_fields_at(b@, pos as int, n1.spec_bytes(), n2.spec_bytes(), n3.spec_bytes(), n4.spec_bytes(), n5.spec_bytes(), n6.spec_bytes(), n7.spec_bytes(), st) {
                        lemma_stats_fields_at_pieces(b@, pos as int, n1.spec_bytes(), n2.spec_bytes(), n3.spec_bytes(), n4.spec_bytes(), n5.spec_bytes(), n6.spec_bytes(), n7.spec_bytes(), st);
                        assert(sdigits_at(b@, e1 as int, st.mean));
                        assert(mean == st.mean);
                        assert(sdigits_at(b@, e3 as int, st.std_dev));
                        assert(std_dev == st.std_dev);
                        assert(sdigits_at(b@, e5 as int, st.min));
                        assert(min == st.min);
                        assert(sdigits_at(b@, e7 as int, st.max));
                        assert(max == st.max);
                        assert(sdigits_at(b@, e9 as int, st.coeff_var));
                        assert(coeff_var == st.coeff_var);
                        assert(sdigits_at(b@, e11 as int, st.p25));
                        assert(p25 == st.p25);
                    }
                }
            }
            return None;
        },
        Some(e) => e,
    };
    let (p75, e14) = match parse_i64(b, e13) {
        None => {
            proof {
                assert forall|st: SeriesStats| !stats_fields_at(
                    b@,
                    pos as int,
                    n1.spec_bytes(), n2.spec_bytes(), n3.spec_bytes(), n4.spec_bytes(), n5.spec_bytes(), n6.spec_bytes(), n7.spec_bytes(),
                    st,
                ) by {
                    if stats_fields_at(b@, pos as int, n1.spec_bytes(), n2.spec_bytes(), n3.spec_bytes(), n4.spec_bytes(), n5.spec_bytes(), n6.spec_bytes(), n7.spec_bytes(), st) {
                        lemma_stats_fields_at_pieces(b@, pos as int, n1.spec_bytes(), n2.spec_bytes(), n3.spec_bytes(), n4.spec_bytes(), n5.spec_bytes(), n6.spec_bytes(), n7.spec_bytes(), st);
                        assert(sdigits_at(b@, e1 as int, st.mean));
                        assert(mean == st.mean);
                        assert(sdigits_at(b@, e3 as int, st.std_dev));
                        assert(std_dev == st.std_dev);
                        assert(sdigits_at(b@, e5 as int, st.min));
                        assert(min == st.min);
                        assert(sdigits_at(b@, e7 as int, st.max));
                        assert(max == st.max);
                        assert(sdigits_at(b@, e9 as int, st.coeff_var));
                        assert(coeff_var == st.coeff_var);
                        assert(sdigits_at(b@, e11 as int, st.p25));
                        assert(p25 == st.p25);
                        assert(sdigits_at(b@, e13 as int, st.p75));
                    }
                }
            }
            return None;
        },
        Some(p) => p,
    };
    let st = SeriesStats { mean, std_dev, min, max, coeff_var, p25, p75 };
    proof {
        reveal(spec_stats_fields);
        lemma_subrange_chain(b@, pos as int, e1 as int, e2 as int);
        lemma_subrange_chain(b@, pos as int, e2 as int, e3 as int);
        lemma_subrange_chain(b@, pos as int, e3 as int, e4 as int);
        lemma_subrange_chain(b@, pos as int, e4 as int, e5 as int);
        lemma_subrange_chain(b@, pos as int, e5 as int, e6 as int);
        lemma_subrange_chain(b@, pos as int, e6 as int, e7 as int);
        lemma_subrange_chain(b@, pos as int, e7 as int, e8 as int);
        lemma_subrange_chain(b@, pos as int, e8 as int, e9 as int);
        lemma_subrange_chain(b@, pos as int, e9 as int, e10 as int);
        lemma_subrange_chain(b@, pos as int, e10 as int, e11 as int);
        lemma_subrange_chain(b@, pos as int, e11 as int, e12 as int);
        lemma_subrange_chain(b@, pos as int, e12 as int, e13 as int);
        lemma_subrange_chain(b@, pos as int, e13 as int, e14 as int);
        assert(b@.subrange(pos as int, e14 as int) =~= spec_stats_fields(
            n1.spec_bytes(), n2.spec_bytes(), n3.spec_bytes(), n4.spec_bytes(), n5.spec_bytes(), n6.spec_bytes(), n7.spec_bytes(),
            st,
        ));
        assert(e14 == pos + spec_stats_fields(n1.spec_bytes(), n2.spec_bytes(), n3.spec_bytes(), n4.spec_bytes(), n5.spec_bytes(), n6.spec_bytes(), n7.spec_bytes(), st).len());
        assert forall|st2: SeriesStats| #[trigger] stats_fields_at(
            b@,
            pos as int,
            n1.spec_bytes(), n2.spec_bytes(), n3.spec_bytes(), n4.spec_bytes(), n5.spec_bytes(), n6.spec_bytes(), n7.spec_bytes(),
            st2,
        ) implies st2 == st && (pos + spec_stats_fields(n1.spec_bytes(), n2.spec_bytes(), n3.spec_bytes(), n4.spec_bytes(), n5.spec_bytes(), n6.spec_bytes(), n7.spec_bytes(), st2).len()) as usize == e14 by {
            lemma_stats_fields_at_pieces(b@, pos as int, n1.spec_bytes(), n2.spec_bytes(), n3.spec_bytes(), n4.spec_bytes(), n5.spec_bytes(), n6.spec_bytes(), n7.spec_bytes(), st2);
            assert(sdigits_at(b@, e1 as int, st2.mean));
            assert(mean == st2.mean);
            assert(sdigits_at(b@, e3 as int, st2.std_dev));
            assert(std_dev == st2.std_dev);
            assert(sdigits_at(b@, e5 as int, st2.min));
            assert(min == st2.min);
            assert(sdigits_at(b@, e7 as int, st2.max));
            assert(max == st2.max);
            assert(sdigits_at(b@, e9 as int, st2.coeff_var));
            assert(coeff_var == st2.coeff_var);
            assert(sdigits_at(b@, e11 as int, st2.p25));
            assert(p25 == st2.p25);
            assert(sdigits_at(b@, e13 as int, st2.p75));
            assert(p75 == st2.p75);
        }
    }
    Some((st, e14))
}

/// The first byte of a series' statistics is the first byte of its
/// first field name.
proof fn lemma_stats_fields_head(
    n1: Seq<u8>,
    n2: Seq<u8>,
    n3: Seq<u8>,
    n4: Seq<u8>,
    n5: Seq<u8>,
    n6: Seq<u8>,
    n7: Seq<u8>,
    st: SeriesStats,
)
    requires
        n1.len() >= 1,
    ensures
        spec_stats_fields(n1, n2, n3, n4, n5, n6, n7, st).len() >= 1,
        spec_stats_fields(n1, n2, n3, n4, n5, n6, n7, st)[0] == n1[0],
{
    reveal(spec_stats_fields);
}

/// The layout of four concatenated pieces within a byte string.
proof fn lemma_cat4_at(b: Seq<u8>, pos: int, g1: Seq<u8>, g2: Seq<u8>, g3: Seq<u8>, g4: Seq<u8>)
    requires
        0 <= pos,
        pos + (g1 + g2 + g3 + g4).len() <= b.len(),
        b.subrange(pos, pos + (g1 + g2 + g3 + g4).len() as int) == g1 + g2 + g3 + g4,
    ensures
        ({
            let o1 = pos + g1.len();
            let o2 = o1 + g2.len();
            let o3 = o2 + g3.len();
            let o4 = o3 + g4.len();
            &&& b.subrange(pos, o1) == g1
            &&& b.subrange(o1, o2) == g2
            &&& b.subrange(o2, o3) == g3
            &&& b.subrange(o3, o4) == g4
        }),
{
    let w = g1 + g2 + g3 + g4;
    let c2 = g1 + g2;
    let c3 = c2 + g3;
    lemma_cat_layout(c3, g4);
    lemma_piece_at(b, pos, w, 0, c3);
    lemma_piece_at(b, pos, w, c3.len() as int, g4);
    lemma_cat_layout(c2, g3);
    lemma_piece_at(b, pos, c3, 0, c2);
    lemma_piece_at(b, pos, c3, c2.len() as int, g3);
    lemma_cat_layout(g1, g2);
    lemma_piece_at(b, pos, c2, 0, g1);
    lemma_piece_at(b, pos, c2, g1.len() as int, g2);
}

/// The coarse layout of a feature message: prefix, identifier run,
/// separator, the four statistics groups, and the closing braces.
#[verifier::rlimit(100)]
#[verifier::spinoff_prover]
proof fn lemma_feature_json_skeleton(b: Seq<u8>, id: u64, fv: FeatureVector)
    requires
        b == ("{\"batch_id\":".spec_bytes() + digits_of(id as int)) + ((
        ",\"features\":{".spec_bytes() + feature_body(fv)) + "}}".spec_bytes()),
    ensures
        ({
            let o1 = "{\"batch_id\":".spec_bytes().len() as int;
            let o2 = o1 + digits_of(id as int).len();
            let o3 = o2 + ",\"features\":{".spec_bytes().len();
            let o4 = o3 + mag_fields(fv).len();
            let o5 = o4 + x_fields(fv).len();
            let o6 = o5 + y_fields(fv).len();
            let o7 = o6 + z_fields(fv).len();
            &&& o7 + 2 == b.len()
            &&& b.subrange(0, o1) == "{\"batch_id\":".spec_bytes()
            &&& digits_at(b, o1, id)
            &&& b.subrange(o2, o3) == ",\"features\":{".spec_bytes()
            &&& b.subrange(o3, o4) == mag_fields(fv)
            &&& b.subrange(o4, o5) == x_fields(fv)
            &&& b.subrange(o5, o6) == y_fields(fv)
            &&& b.subrange(o6, o7) == z_fields(fv)
            &&& b.subrange(o7, b.len() as int) == "}}".spec_bytes()
        }),
{
    lemma_features_separator_head();
    lemma_close_lit_heads();
    lemma_digits_are_digits(id as int);
    let p = "{\"batch_id\":".spec_bytes();
    let d = digits_of(id as int);
    let sep = ",\"features\":{".spec_bytes();
    let bod = feature_body(fv);
    let e = "}}".spec_bytes();
    let x = p + d;
    let r = (sep + bod) + e;
    assert(b == x + r);
    assert(b.subrange(0, b.len() as int) =~= b);
    lemma_cat_layout(x, r);
    lemma_piece_at(b, 0, b, 0, x);
    lemma_piece_at(b, 0, b, x.len() as int, r);
    lemma_cat_layout(p, d);
    lemma_piece_at(b, 0, x, 0, p);
    lemma_piece_at(b, 0, x, p.len() as int, d);
    lemma_cat_layout(sep + bod, e);
    lemma_piece_at(b, x.len() as int, r, 0, sep + bod);
    lemma_piece_at(b, x.len() as int, r, (sep + bod).len() as int, e);
    lemma_cat_layout(sep, bod);
    lemma_piece_at(b, x.len() as int, sep + bod, 0, sep);
    lemma_piece_at(b, x.len() as int, sep + bod, sep.len() as int, bod);
    reveal(feature_body);
    assert(bod == mag_fields(fv) + x_fields(fv) + y_fields(fv) + z_fields(fv));
    lemma_cat4_at(
        b,
        x.len() + sep.len() as int,
        mag_fields(fv),
        x_fields(fv),
        y_fields(fv),
        z_fields(fv),
    );
    assert(digits_at(b, p.len() as int, id)) by {
        let o2 = p.len() + d.len();
        assert(b.subrange(o2 as int, o2 + sep.len() as int)[0] == b[o2 as int]);
        assert(!is_digit(b[o2 as int]));
    }
}

/// Where the pieces of a feature message stand.
#[verifier::rlimit(100)]
#[verifier::spinoff_prover]
proof fn lemma_feature_json_pieces(b: Seq<u8>, id: u64, fv: FeatureVector)
    requires
        b == spec_feature_json(id, fv),
        features_sendable(fv),
    ensures
        ({
            let o1 = "{\"batch_id\":".spec_bytes().len() as int;
            let o2 = o1 + digits_of(id as int).len();
            let o3 = o2 + ",\"features\":{".spec_bytes().len();
            let o4 = o3 + mag_fields(fv).len();
            let o5 = o4 + x_fields(fv).len();
            let o6 = o5 + y_fields(fv).len();
            let o7 = o6 + z_fields(fv).len();
            &&& o7 + 2 == b.len()
            &&& b.subrange(0, o1) == "{\"batch_id\":".spec_bytes()
            &&& digits_at(b, o1, id)
            &&& b.subrange(o2, o3) == ",\"features\":{".spec_bytes()
            &&& mag_fields_at(b, o3, fv)
            &&& x_fields_at(b, o4, fv)
            &&& y_fields_at(b, o5, fv)
            &&& z_fields_at(b, o6, fv)
            &&& b.subrange(o7, b.len() as int) == "}}".spec_bytes()
        }),
{
    lemma_feature_json_reassociated(id, fv);
    lemma_feature_json_skeleton(b, id, fv);
    lemma_close_lit_heads();
    reveal(mag_fields_st);
    reveal(x_fields_st);
    reveal(y_fields_st);
    reveal(z_fields_st);
    lemma_stats_lit_heads_mag();
    lemma_stats_lit_heads_x();
    lemma_stats_lit_heads_y();
    lemma_stats_lit_heads_z();
    let o1 = "{\"batch_id\":".spec_bytes().len() as int;
    let o2 = o1 + digits_of(id as int).len();
    let o3 = o2 + ",\"features\":{".spec_bytes().len();
    let o4 = o3 + mag_fields(fv).len();
    let o5 = o4 + x_fields(fv).len();
    let o6 = o5 + y_fields(fv).len();
    let o7 = o6 + z_fields(fv).len();
    assert(b[o4] == 44u8) by {
        lemma_stats_fields_head(
            ",\"mean_x\":".spec_bytes(),
            ",\"std_dev_x\":".spec_bytes(),
            ",\"min_x\":".spec_bytes(),
            ",\"max_x\":".spec_bytes(),
            ",\"coeff_var_x\":".spec_bytes(),
            ",\"percentile_25_x\":".spec_bytes(),
            ",\"percentile_75_x\":".spec_bytes(),
            fv.x,
        );
        assert(b.subrange(o4, o5)[0] == b[o4]);
    }
    assert(mag_fields_at(b, o3, fv));
    assert(b[o5] == 44u8) by {
        lemma_stats_fields_head(
            ",\"mean_y\":".spec_bytes(),
            ",\"std_dev_y\":".spec_bytes(),
            ",\"min_y\":".spec_bytes(),
            ",\"max_y\":".spec_bytes(),
            ",\"coeff_var_y\":".spec_bytes(),
            ",\"percentile_25_y\":".spec_bytes(),
            ",\"percentile_75_y\":".spec_bytes(),
            fv.y,
        );
        assert(b.subrange(o5, o6)[0] == b[o5]);
    }
    assert(x_fields_at(b, o4, fv));
    assert(b[o6] == 44u8) by {
        lemma_stats_fields_head(
            ",\"mean_z\":".spec_bytes(),
            ",\"std_dev_z\":".spec_bytes(),
            ",\"min_z\":".spec_bytes(),
            ",\"max_z\":".spec_bytes(),
            ",\"coeff_var_z\":".spec_bytes(),
            ",\"percentile_25_z\":".spec_bytes(),
            ",\"percentile_75_z\":".spec_bytes(),
            fv.z,
        );
        assert(b.subrange(o6, o7)[0] == b[o6]);
    }
    assert(y_fields_at(b, o5, fv));
    assert(b[o7] == 125u8) by {
        assert(b.subrange(o7, b.len() as int)[0] == b[o7]);
    }
    assert(z_fields_at(b, o6, fv));
}

/// All four statistics groups stand consecutively at `pos`, each
/// closed by what follows it.
pub open spec fn feature_groups_at(b: Seq<u8>, pos: int, fv: FeatureVector) -> bool {
    &&& mag_fields_at(b, pos, fv)
    &&& x_fields_at(b, pos + mag_fields(fv).len(), fv)
    &&& y_fields_at(b, pos + mag_fields(fv).len() + x_fields(fv).len(), fv)
    &&& z_fields_at(
        b,
        pos + mag_fields(fv).len() + x_fields(fv).len() + y_fields(fv).len(),
        fv,
    )
}

/// Parses seven statistics under the mag series' field names:
/// exactly the canonical closed runs of sendable statistics.
#[verifier::rlimit(100)]
fn parse_mag_fields(b: &[u8], pos: usize) -> (r: Option<(SeriesStats, usize)>)
    requires
        pos <= b@.len(),
    ensures
        r matches Some((st, end)) ==> {
            &&& pos <= end <= b@.len()
            &&& b@.subrange(pos as int, end as int) == mag_fields_st(st)
            &&& stats_sendable(st)
            &&& end == pos + mag_fields_st(st).len()
        },
        (exists|st: SeriesStats| #[trigger] mag_fields_st_at(b@, pos as int, st)) ==> r is Some,
        forall|st: SeriesStats|
            #[trigger] mag_fields_st_at(b@, pos as int, st) && r is Some ==> r == Some(
                (st, (pos + mag_fields_st(st).len()) as usize),
            ),
{
    proof {
        lemma_stats_lit_heads_mag();
    }
    let r = parse_stats_fields(
        b,
        pos,
        "\"mean_mag\":",
        ",\"std_dev_mag\":",
        ",\"min_mag\":",
        ",\"max_mag\":",
        ",\"coeff_var_mag\":",
        ",\"percentile_25_mag\":",
        ",\"percentile_75_mag\":",
    );
    proof {
        reveal(mag_fields_st);
        assert forall|st: SeriesStats| #[trigger] mag_fields_st_at(b@, pos as int, st) implies
            stats_fields_at(
            b@,
            pos as int,
            "\"mean_mag\":".spec_bytes(),
            ",\"std_dev_mag\":".spec_bytes(),
            ",\"min_mag\":".spec_bytes(),
            ",\"max_mag\":".spec_bytes(),
            ",\"coeff_var_mag\":".spec_bytes(),
            ",\"percentile_25_mag\":".spec_bytes(),
            ",\"percentile_75_mag\":".spec_bytes(),
            st,
        ) by {}
    }
    r
}

/// Parses seven statistics under the x series' field names:
/// exactly the canonical closed runs of sendable statistics.
#[verifier::rlimit(100)]
fn parse_x_fields(b: &[u8], pos: usize) -> (r: Option<(SeriesStats, usize)>)
    requires
        pos <= b@.len(),
    ensures
        r matches Some((st, end)) ==> {
            &&& pos <= end <= b@.len()
            &&& b@.subrange(pos as int, end as int) == x_fields_st(st)
            &&& stats_sendable(st)
            &&& end == pos + x_fields_st(st).len()
        },
        (exists|st: SeriesStats| #[trigger] x_fields_st_at(b@, pos as int, st)) ==> r is Some,
        forall|st: SeriesStats|
            #[trigger] x_fields_st_at(b@, pos as int, st) && r is Some ==> r == Some(
                (st, (pos + x_fields_st(st).len()) as usize),
            ),
{
    proof {
        lemma_stats_lit_heads_x();
    }
    let r = parse_stats_fields(
        b,
        pos,
        ",\"mean_x\":",
        ",\"std_dev_x\":",
        ",\"min_x\":",
        ",\"max_x\":",
        ",\"coeff_var_x\":",
        ",\"percentile_25_x\":",
        ",\"percentile_75_x\":",
    );
    proof {
        reveal(x_fields_st);
        assert forall|st: SeriesStats| #[trigger] x_fields_st_at(b@, pos as int, st) implies
            stats_fields_at(
            b@,
            pos as int,
            ",\"mean_x\":".spec_bytes(),
            ",\"std_dev_x\":".spec_bytes(),
            ",\"min_x\":".spec_bytes(),
            ",\"max_x\":".spec_bytes(),
            ",\"coeff_var_x\":".spec_bytes(),
            ",\"percentile_25_x\":".spec_bytes(),
            ",\"percentile_75_x\":".spec_bytes(),
            st,
        ) by {}
    }
    r
}

/// Parses seven statistics under the y series' field names:
/// exactly the canonical closed runs of sendable statistics.
#[verifier::rlimit(100)]
fn parse_y_fields(b: &[u8], pos: usize) -> (r: Option<(SeriesStats, usize)>)
    requires
        pos <= b@.len(),
    ensures
        r matches Some((st, end)) ==> {
            &&& pos <= end <= b@.len()
            &&& b@.subrange(pos as int, end as int) == y_fields_st(st)
            &&& stats_sendable(st)
            &&& end == pos + y_fields_st(st).len()
        },
        (exists|st: SeriesStats| #[trigger] y_fields_st_at(b@, pos as int, st)) ==> r is Some,
        forall|st: SeriesStats|
            #[trigger] y_fields_st_at(b@, pos as int, st) && r is Some ==> r == Some(
                (st, (pos + y_fields_st(st).len()) as usize),
            ),
{
    proof {
        lemma_stats_lit_heads_y();
    }
    let r = parse_stats_fields(
        b,
        pos,
        ",\"mean_y\":",
        ",\"std_dev_y\":",
        ",\"min_y\":",
        ",\"max_y\":",
        ",\"coeff_var_y\":",
        ",\"percentile_25_y\":",
        ",\"percentile_75_y\":",
    );
    proof {
        reveal(y_fields_st);
        assert forall|st: SeriesStats| #[trigger] y_fields_st_at(b@, pos as int, st) implies
            stats_fields_at(
            b@,
            pos as int,
            ",\"mean_y\":".spec_bytes(),
            ",\"std_dev_y\":".spec_bytes(),
            ",\"min_y\":".spec_bytes(),
            ",\"max_y\":".spec_bytes(),
            ",\"coeff_var_y\":".spec_bytes(),
            ",\"percentile_25_y\":".spec_bytes(),
            ",\"percentile_75_y\":".spec_bytes(),
            st,
        ) by {}
    }
    r
}

/// Parses seven statistics under the z series' field names:
/// exactly the canonical closed runs of sendable statistics.
#[verifier::rlimit(100)]
fn parse_z_fields(b: &[u8], pos: usize) -> (r: Option<(SeriesStats, usize)>)
    requires
        pos <= b@.len(),
    ensures
        r matches Some((st, end)) ==> {
            &&& pos <= end <= b@.len()
            &&& b@.subrange(pos as int, end as int) == z_fields_st(st)
            &&& stats_sendable(st)
            &&& end == pos + z_fields_st(st).len()
        },
        (exists|st: SeriesStats| #[trigger] z_fields_st_at(b@, pos as int, st)) ==> r is Some,
        forall|st: SeriesStats|
            #[trigger] z_fields_st_at(b@, pos as int, st) && r is Some ==> r == Some(
                (st, (pos + z_fields_st(st).len()) as usize),
            ),
{
    proof {
        lemma_stats_lit_heads_z();
    }
    let r = parse_stats_fields(
        b,
        pos,
        ",\"mean_z\":",
        ",\"std_dev_z\":",
        ",\"min_z\":",
        ",\"max_z\":",
        ",\"coeff_var_z\":",
        ",\"percentile_25_z\":",
        ",\"percentile_75_z\":",
    );
    proof {
        reveal(z_fields_st);
        assert forall|st: SeriesStats| #[trigger] z_fields_st_at(b@, pos as int, st) implies
            stats_fields_at(
            b@,
            pos as int,
            ",\"mean_z\":".spec_bytes(),
            ",\"std_dev_z\":".spec_bytes(),
            ",\"min_z\":".spec_bytes(),
            ",\"max_z\":".spec_bytes(),
            ",\"coeff_var_z\":".spec_bytes(),
            ",\"percentile_25_z\":".spec_bytes(),
            ",\"percentile_75_z\":".spec_bytes(),
            st,
        ) by {}
    }
    r
}

/// Parses the four statistics groups of a feature message in their
/// fixed order: anything accepted is exactly their canonical encoding,
/// and every closed canonical run of sendable statistics is accepted.
#[verifier::rlimit(100)]
fn parse_all_groups(b: &[u8], pos: usize) -> (r: Option<(FeatureVector, usize)>)
    requires
        pos <= b@.len(),
    ensures
        r matches Some((fv, end)) ==> {
            &&& pos <= end <= b@.len()
            &&& b@.subrange(pos as int, end as int) == feature_body(fv)
            &&& features_sendable(fv)
            &&& end == pos + feature_body(fv).len()
        },
        (exists|fv: FeatureVector| #[trigger] feature_groups_at(b@, pos as int, fv)) ==> r
            is Some,
        forall|fv: FeatureVector| #[trigger] feature_groups_at(b@, pos as int, fv) && r is Some
            ==> r == Some((fv, (pos + feature_body(fv).len()) as usize)),
{
    proof {
        if exists|fv: FeatureVector| #[trigger] feature_groups_at(b@, pos as int, fv) {
            let fv0 = choose|fv: FeatureVector| #[trigger] feature_groups_at(b@, pos as int, fv);
            assert(mag_fields_st_at(b@, pos as int, fv0.mag));
        }
    }
    let (mag, e1) = match parse_mag_fields(b, pos) {
        None => {
            return None;
        },
        Some(p) => p,
    };
    proof {
        if exists|fv: FeatureVector| #[trigger] feature_groups_at(b@, pos as int, fv) {
            let fv0 = choose|fv: FeatureVector| #[trigger] feature_groups_at(b@, pos as int, fv);
            assert(mag_fields_st_at(b@, pos as int, fv0.mag));
            assert(mag == fv0.mag);
            assert(x_fields_st_at(b@, e1 as int, fv0.x));
        }
    }
    let (x, e2) = match parse_x_fields(b, e1) {
        None => {
            return None;
        },
        Some(p) => p,
    };
    proof {
        if exists|fv: FeatureVector| #[trigger] feature_groups_at(b@, pos as int, fv) {
            let fv0 = choose|fv: FeatureVector| #[trigger] feature_groups_at(b@, pos as int, fv);
            assert(mag_fields_st_at(b@, pos as int, fv0.mag));
            assert(mag == fv0.mag);
            assert(x_fields_st_at(b@, e1 as int, fv0.x));
            assert(x == fv0.x);
            assert(y_fields_st_at(b@, e2 as int, fv0.y));
        }
    }
    let (y, e3) = match parse_y_fields(b, e2) {
        None => {
            return None;
        },
        Some(p) => p,
    };
    proof {
        if exists|fv: FeatureVector| #[trigger] feature_groups_at(b@, pos as int, fv) {
            let fv0 = choose|fv: FeatureVector| #[trigger] feature_groups_at(b@, pos as int, fv);
            assert(mag_fields_st_at(b@, pos as int, fv0.mag));
            assert(mag == fv0.mag);
            assert(x_fields_st_at(b@, e1 as int, fv0.x));
            assert(x == fv0.x);
            assert(y_fields_st_at(b@, e2 as int, fv0.y));
            assert(y == fv0.y);
            assert(z_fields_st_at(b@, e3 as int, fv0.z));
        }
    }
    let (z, e4) = match parse_z_fields(b, e3) {
        None => {
            return None;
        },
        Some(p) => p,
    };
    let fv = FeatureVector { mag, x, y, z };
    proof {
        reveal(feature_body);
        lemma_subrange_chain(b@, pos as int, e1 as int, e2 as int);
        lemma_subrange_chain(b@, pos as int, e2 as int, e3 as int);
        lemma_subrange_chain(b@, pos as int, e3 as int, e4 as int);
        assert(b@.subrange(pos as int, e4 as int) =~= feature_body(fv));
        assert(e4 == pos + feature_body(fv).len());
        assert forall|fv2: FeatureVector| #[trigger] feature_groups_at(
            b@,
            pos as int,
            fv2,
        ) implies fv2 == fv && (pos + feature_body(fv2).len()) as usize == e4 by {
            assert(mag_fields_st_at(b@, pos as int, fv2.mag));
            assert(mag == fv2.mag);
            assert(x_fields_st_at(b@, e1 as int, fv2.x));
            assert(x == fv2.x);
            assert(y_fields_st_at(b@, e2 as int, fv2.y));
            assert(y == fv2.y);
            assert(z_fields_st_at(b@, e3 as int, fv2.z));
            assert(z == fv2.z);
        }
    }
    Some((fv, e4))
}

/// Parses a canonical feature message.  Anything accepted is exactly
/// the canonical encoding of the returned message; a document that
/// lacks any of the 28 named statistics, or carries them out of order,
/// is rejected; and every canonical message of sendable statistics is
/// accepted.
#[verifier::rlimit(100)]
pub fn parse_feature_message(b: &[u8]) -> (r: Result<FeatureMessage, ParseError>)
    ensures
        r matches Ok(m) ==> {
            &&& b@ == spec_feature_json(m.batch_id, m.features)
            &&& features_sendable(m.features)
        },
        (exists|id: u64, fv: FeatureVector|
            b@ == #[trigger] spec_feature_json(id, fv) && features_sendable(fv)) ==> r is Ok,
{
    let ghost has_canon = exists|id: u64, fv: FeatureVector|
        b@ == #[trigger] spec_feature_json(id, fv) && features_sendable(fv);
    let ghost (id0, fv0) = if has_canon {
        choose|id: u64, fv: FeatureVector|
            b@ == #[trigger] spec_feature_json(id, fv) && features_sendable(fv)
    } else {
        (0u64, vstd::pervasive::arbitrary::<FeatureVector>())
    };
    proof {
        if has_canon {
            lemma_feature_json_pieces(b@, id0, fv0);
            assert(feature_groups_at(
                b@,
                "{\"batch_id\":".spec_bytes().len() + digits_of(id0 as int).len()
                    + ",\"features\":{".spec_bytes().len() as int,
                fv0,
            ));
        }
    }
    let e0 = match match_lit(b, 0, "{\"batch_id\":") {
        None => {
            return Err(ParseError::Malformed);
        },
        Some(e) => e,
    };
    let (batch_id, e1) = match parse_u64(b, e0) {
        None => {
            return Err(ParseError::Malformed);
        },
        Some(p) => p,
    };
    proof {
        if has_canon {
            assert(batch_id == id0);
        }
    }
    let e2 = match match_lit(b, e1, ",\"features\":{") {
        None => {
            return Err(ParseError::Malformed);
        },
        Some(e) => e,
    };
    let (fv2, e3) = match parse_all_groups(b, e2) {
        None => {
            return Err(ParseError::Malformed);
        },
        Some(p) => p,
    };
    proof {
        if has_canon {
            assert(feature_groups_at(b@, e2 as int, fv0));
            assert(fv2 == fv0);
            reveal(feature_body);
            assert(e3 + 2 == b@.len());
            assert(b@.subrange(e3 as int, b@.len() as int) == "}}".spec_bytes());
        }
    }
    let e4 = match match_lit(b, e3, "}}") {
        None => {
            return Err(ParseError::Malformed);
        },
        Some(e) => e,
    };
    if e4 != b.len() {
        return Err(ParseError::Malformed);
    }
    proof {
        reveal(feature_body);
        lemma_subrange_chain(b@, 0, e0 as int, e1 as int);
        lemma_subrange_chain(b@, 0, e1 as int, e2 as int);
        lemma_subrange_chain(b@, 0, e2 as int, e3 as int);
        lemma_subrange_chain(b@, 0, e3 as int, e4 as int);
        assert(b@.subrange(0, e4 as int) =~= b@);
        assert(b@ =~= spec_feature_json(batch_id, fv2));
    }
    Ok(FeatureMessage { batch_id, features: fv2 })
}

/// The canonical encoding of a classification result message.
pub open spec fn spec_result_json(batch_id: u64, l: Label) -> Seq<u8> {
    "{\"batch_id\":".spec_bytes() + digits_of(batch_id as int)
        + ",\"classification\":\"".spec_bytes() + spec_label_name(l) + "\"}".spec_bytes()
}

/// Builds the canonical classification result message.
pub fn build_result_message(batch_id: u64, l: Label) -> (r: Vec<u8>)
    ensures
        r@ == spec_result_json(batch_id, l),
{
    let mut out: Vec<u8> = Vec::new();
    push_lit("{\"batch_id\":", &mut out);
    push_digits(batch_id, &mut out);
    push_lit(",\"classification\":\"", &mut out);
    push_lit(l.name(), &mut out);
    push_lit("\"}", &mut out);
    proof {
        assert(out@ =~= spec_result_json(batch_id, l));
    }
    out
}

/// Lengths and leading bytes of the five label names.
proof fn lemma_label_name_bytes()
    ensures
        "Jogging".spec_bytes().len() == 7,
        "Jogging".spec_bytes()[0] == 74u8,
        "Jogging".spec_bytes()[1] == 111u8,
        "Jogging".spec_bytes()[2] == 103u8,
        "Jogging".spec_bytes()[3] == 103u8,
        "Walking".spec_bytes().len() == 7,
        "Walking".spec_bytes()[0] == 87u8,
        "Walking".spec_bytes()[1] == 97u8,
        "Walking".spec_bytes()[2] == 108u8,
        "Walking".spec_bytes()[3] == 107u8,
        "Standing".spec_bytes().len() == 8,
        "Standing".spec_bytes()[0] == 83u8,
        "Standing".spec_bytes()[1] == 116u8,
        "Standing".spec_bytes()[2] == 97u8,
        "Standing".spec_bytes()[3] == 110u8,
        "Stairs".spec_bytes().len() == 6,
        "Stairs".spec_bytes()[0] == 83u8,
        "Stairs".spec_bytes()[1] == 116u8,
        "Stairs".spec_bytes()[2] == 97u8,
        "Stairs".spec_bytes()[3] == 105u8,
        "Sitting".spec_bytes().len() == 7,
        "Sitting".spec_bytes()[0] == 83u8,
        "Sitting".spec_bytes()[1] == 105u8,
        "Sitting".spec_bytes()[2] == 116u8,
        "Sitting".spec_bytes()[3] == 116u8,
{
    reveal_strlit("Jogging");
    assert(vstd::string::is_ascii("Jogging"));
    vstd::utf8::is_ascii_chars_encode_utf8(("Jogging")@);
    assert(("Jogging").spec_bytes()[0] == ("Jogging")@[0] as u8);
    assert(("Jogging").spec_bytes()[1] == ("Jogging")@[1] as u8);
    assert(("Jogging").spec_bytes()[2] == ("Jogging")@[2] as u8);
    assert(("Jogging").spec_bytes()[3] == ("Jogging")@[3] as u8);
    reveal_strlit("Walking");
    assert(vstd::string::is_ascii("Walking"));
    vstd::utf8::is_ascii_chars_encode_utf8(("Walking")@);
    assert(("Walking").spec_bytes()[0] == ("Walking")@[0] as u8);
    assert(("Walking").spec_bytes()[1] == ("Walking")@[1] as u8);
    assert(("Walking").spec_bytes()[2] == ("Walking")@[2] as u8);
    assert(("Walking").spec_bytes()[3] == ("Walking")@[3] as u8);
    reveal_strlit("Standing");
    assert(vstd::string::is_ascii("Standing"));
    vstd::utf8::is_ascii_chars_encode_utf8(("Standing")@);
    assert(("Standing").spec_bytes()[0] == ("Standing")@[0] as u8);
    assert(("Standing").spec_bytes()[1] == ("Standing")@[1] as u8);
    assert(("Standing").spec_bytes()[2] == ("Standing")@[2] as u8);
    assert(("Standing").spec_bytes()[3] == ("Standing")@[3] as u8);
    reveal_strlit("Stairs");
    assert(vstd::string::is_ascii("Stairs"));
    vstd::utf8::is_ascii_chars_encode_utf8(("Stairs")@);
    assert(("Stairs").spec_bytes()[0] == ("Stairs")@[0] as u8);
    assert(("Stairs").spec_bytes()[1] == ("Stairs")@[1] as u8);
    assert(("Stairs").spec_bytes()[2] == ("Stairs")@[2] as u8);
    assert(("Stairs").spec_bytes()[3] == ("Stairs")@[3] as u8);
    reveal_strlit("Sitting");
    assert(vstd::string::is_ascii("Sitting"));
    vstd::utf8::is_ascii_chars_encode_utf8(("Sitting")@);
    assert(("Sitting").spec_bytes()[0] == ("Sitting")@[0] as u8);
    assert(("Sitting").spec_bytes()[1] == ("Sitting")@[1] as u8);
    assert(("Sitting").spec_bytes()[2] == ("Sitting")@[2] as u8);
    assert(("Sitting").spec_bytes()[3] == ("Sitting")@[3] as u8);
}

/// Two label names standing at the same position are the same label's.
proof fn lemma_label_name_clash(b: Seq<u8>, pos: int, l1: Label, l2: Label)
    requires
        0 <= pos,
        pos + spec_label_name(l1).len() <= b.len(),
        b.subrange(pos, pos + spec_label_name(l1).len() as int) == spec_label_name(l1),
        pos + spec_label_name(l2).len() <= b.len(),
        b.subrange(pos, pos + spec_label_name(l2).len() as int) == spec_label_name(l2),
    ensures
        l1 == l2,
{
    lemma_label_name_bytes();
    assert(forall|i: int|
        0 <= i < spec_label_name(l1).len() ==> b.subrange(
            pos,
            pos + spec_label_name(l1).len() as int,
        )[i] == #[trigger] b[pos + i]);
    assert(forall|i: int|
        0 <= i < spec_label_name(l2).len() ==> b.subrange(
            pos,
            pos + spec_label_name(l2).len() as int,
        )[i] == #[trigger] b[pos + i]);
}

/// Where the pieces of a classification result message stand.
proof fn lemma_result_json_pieces(b: Seq<u8>, id: u64, l: Label)
    requires
        b == spec_result_json(id, l),
    ensures
        ({
            let o1 = "{\"batch_id\":".spec_bytes().len() as int;
            let o2 = o1 + digits_of(id as int).len();
            let o3 = o2 + ",\"classification\":\"".spec_bytes().len();
            let o4 = o3 + spec_label_name(l).len();
            &&& o4 + 2 == b.len()
            &&& b.subrange(0, o1) == "{\"batch_id\":".spec_bytes()
            &&& digits_at(b, o1, id)
            &&& b.subrange(o2, o3) == ",\"classification\":\"".spec_bytes()
            &&& b.subrange(o3, o4) == spec_label_name(l)
            &&& b.subrange(o4, b.len() as int) == "\"}".spec_bytes()
        }),
{
    lemma_classification_separator_head();
    lemma_close_lit_heads();
    lemma_digits_are_digits(id as int);
    let p = "{\"batch_id\":".spec_bytes();
    let d = digits_of(id as int);
    let sep = ",\"classification\":\"".spec_bytes();
    let nm = spec_label_name(l);
    let q = "\"}".spec_bytes();
    let c1 = p + d;
    let c2 = c1 + sep;
    let c3 = c2 + nm;
    assert(b == c3 + q);
    assert(b.subrange(0, b.len() as int) =~= b);
    lemma_cat_layout(c3, q);
    lemma_piece_at(b, 0, b, 0, c3);
    lemma_piece_at(b, 0, b, c3.len() as int, q);
    lemma_cat_layout(c2, nm);
    lemma_piece_at(b, 0, c3, 0, c2);
    lemma_piece_at(b, 0, c3, c2.len() as int, nm);
    lemma_cat_layout(c1, sep);
    lemma_piece_at(b, 0, c2, 0, c1);
    lemma_piece_at(b, 0, c2, c1.len() as int, sep);
    lemma_cat_layout(p, d);
    lemma_piece_at(b, 0, c1, 0, p);
    lemma_piece_at(b, 0, c1, p.len() as int, d);
    assert(digits_at(b, p.len() as int, id)) by {
        assert(b.subrange(c1.len() as int, c1.len() + sep.len() as int)[0] == b[c1.len() as int]);
        assert(!is_digit(b[c1.len() as int]));
    }
}

/// Parses a canonical classification result message: anything accepted
/// is exactly the canonical encoding of the returned message, and every
/// canonical result message is accepted.
#[verifier::rlimit(100)]
pub fn parse_result_message(b: &[u8]) -> (r: Result<ResultMessage, ParseError>)
    ensures
        r matches Ok(m) ==> b@ == spec_result_json(m.batch_id, m.label),
        (exists|id: u64, l: Label| b@ == #[trigger] spec_result_json(id, l)) ==> r is Ok,
{
    let ghost has_canon = exists|id: u64, l: Label| b@ == #[trigger] spec_result_json(id, l);
    let ghost (id0, l0) = if has_canon {
        choose|id: u64, l: Label| b@ == #[trigger] spec_result_json(id, l)
    } else {
        (0u64, Label::Jogging)
    };
    proof {
        if has_canon {
            lemma_result_json_pieces(b@, id0, l0);
            lemma_label_name_bytes();
        }
    }
    let e0 = match match_lit(b, 0, "{\"batch_id\":") {
        None => {
            return Err(ParseError::Malformed);
        },
        Some(e) => e,
    };
    let (batch_id, e1) = match parse_u64(b, e0) {
        None => {
            return Err(ParseError::Malformed);
        },
        Some(p) => p,
    };
    let e2 = match match_lit(b, e1, ",\"classification\":\"") {
        None => {
            return Err(ParseError::Malformed);
        },
        Some(e) => e,
    };
    proof {
        if has_canon {
            assert(batch_id == id0);
        }
    }
    let (label, e3) = if let Some(e) = match_lit(b, e2, "Jogging") {
        (Label::Jogging, e)
    } else if let Some(e) = match_lit(b, e2, "Walking") {
        (Label::Walking, e)
    } else if let Some(e) = match_lit(b, e2, "Standing") {
        (Label::Standing, e)
    } else if let Some(e) = match_lit(b, e2, "Stairs") {
        (Label::Stairs, e)
    } else if let Some(e) = match_lit(b, e2, "Sitting") {
        (Label::Sitting, e)
    } else {
        proof {
            if has_canon {
                assert(b@.subrange(e2 as int, e2 + spec_label_name(l0).len() as int)
                    == spec_label_name(l0));
                assert(false);
            }
        }
        return Err(ParseError::Malformed);
    };
    proof {
        if has_canon {
            lemma_label_name_clash(b@, e2 as int, label, l0);
            assert(label == l0);
            assert(e3 + 2 == b@.len());
        }
    }
    let e4 = match match_lit(b, e3, "\"}") {
        None => {
            return Err(ParseError::Malformed);
        },
        Some(e) => e,
    };
    if e4 != b.len() {
        return Err(ParseError::Malformed);
    }
    proof {
        lemma_subrange_chain(b@, 0, e0 as int, e1 as int);
        lemma_subrange_chain(b@, 0, e1 as int, e2 as int);
        lemma_subrange_chain(b@, 0, e2 as int, e3 as int);
        lemma_subrange_chain(b@, 0, e3 as int, e4 as int);
        assert(b@.subrange(0, e4 as int) =~= b@);
        assert(b@ =~= spec_result_json(batch_id, label));
    }
    Ok(ResultMessage { batch_id, label })
}

/// The canonical persisted-model document: one JSON object holding the
/// base64 text of the encoded model.
pub open spec fn spec_metadata_json(t: Seq<u8>) -> Seq<u8> {
    "{\"classifier_base64\":\"".spec_bytes() + t + "\"}".spec_bytes()
}

/// Builds the canonical persisted-model document.
pub fn build_metadata(text: &Vec<u8>) -> (r: Vec<u8>)
    ensures
        r@ == spec_metadata_json(text@),
{
    let mut out: Vec<u8> = Vec::new();
    push_lit("{\"classifier_base64\":\"", &mut out);
    out.extend_from_slice(text.as_slice());
    push_lit("\"}", &mut out);
    proof {
        assert(out@ =~= spec_metadata_json(text@));
    }
    out
}

/// A quote-free text is pinned down by its persisted-model document.
pub proof fn lemma_metadata_json_injective(t1: Seq<u8>, t2: Seq<u8>)
    requires
        spec_metadata_json(t1) == spec_metadata_json(t2),
    ensures
        t1 == t2,
{
    let p = "{\"classifier_base64\":\"".spec_bytes();
    let q = "\"}".spec_bytes();
    assert((p + t1 + q).len() == (p + t2 + q).len());
    assert((p + t1 + q).len() == p.len() + t1.len() + q.len());
    assert((p + t2 + q).len() == p.len() + t2.len() + q.len());
    assert(t1.len() == t2.len());
    assert(t1 =~= t2) by {
        assert(forall|i: int|
            0 <= i < t1.len() ==> (p + t1 + q)[p.len() + i] == #[trigger] t1[i]);
        assert(forall|i: int|
            0 <= i < t2.len() ==> (p + t2 + q)[p.len() + i] == #[trigger] t2[i]);
    }
}

/// Where the pieces of a persisted-model document stand.
proof fn lemma_metadata_json_pieces(b: Seq<u8>, t: Seq<u8>)
    requires
        b == spec_metadata_json(t),
    ensures
        ({
            let o1 = "{\"classifier_base64\":\"".spec_bytes().len() as int;
            let o2 = o1 + t.len();
            &&& o2 + 2 == b.len()
            &&& b.subrange(0, o1) == "{\"classifier_base64\":\"".spec_bytes()
            &&& b.subrange(o1, o2) == t
            &&& b.subrange(o2, b.len() as int) == "\"}".spec_bytes()
        }),
{
    lemma_close_lit_heads();
    let p = "{\"classifier_base64\":\"".spec_bytes();
    let q = "\"}".spec_bytes();
    let c1 = p + t;
    assert(b == c1 + q);
    assert(b.subrange(0, b.len() as int) =~= b);
    lemma_cat_layout(c1, q);
    lemma_piece_at(b, 0, b, 0, c1);
    lemma_piece_at(b, 0, b, c1.len() as int, q);
    lemma_cat_layout(p, t);
    lemma_piece_at(b, 0, c1, 0, p);
    lemma_piece_at(b, 0, c1, p.len() as int, t);
}

/// Parses a canonical persisted-model document, returning the embedded
/// base64 text, which carries no quote byte.  Anything accepted is
/// exactly the canonical document of the returned text, and every
/// canonical document of a quote-free text is accepted.
pub fn parse_metadata(b: &[u8]) -> (r: Result<Vec<u8>, ParseError>)
    ensures
        r matches Ok(t) ==> {
            &&& b@ == spec_metadata_json(t@)
            &&& forall|i: int| 0 <= i < t@.len() ==> #[trigger] t@[i] != 34
        },
        (exists|t: Seq<u8>|
            b@ == #[trigger] spec_metadata_json(t) && (forall|i: int|
                0 <= i < t.len() ==> #[trigger] t[i] != 34)) ==> r is Ok,
{
    let ghost has_canon = exists|t: Seq<u8>|
        b@ == #[trigger] spec_metadata_json(t) && (forall|i: int|
            0 <= i < t.len() ==> #[trigger] t[i] != 34);
    let ghost t0 = if has_canon {
        choose|t: Seq<u8>|
            b@ == #[trigger] spec_metadata_json(t) && (forall|i: int|
                0 <= i < t.len() ==> #[trigger] t[i] != 34)
    } else {
        Seq::<u8>::empty()
    };
    proof {
        if has_canon {
            lemma_metadata_json_pieces(b@, t0);
            lemma_close_lit_heads();
        }
    }
    let e0 = match match_lit(b, 0, "{\"classifier_base64\":\"") {
        None => return Err(ParseError::Malformed),
        Some(e) => e,
    };
    let mut t: Vec<u8> = Vec::new();
    let mut e: usize = e0;
    while e < b.len() && b[e] != 34
        invariant
            e0 <= e <= b@.len(),
            t@ == b@.subrange(e0 as int, e as int),
            forall|i: int| 0 <= i < t@.len() ==> #[trigger] t@[i] != 34,
            has_canon == (exists|t2: Seq<u8>|
                b@ == #[trigger] spec_metadata_json(t2) && (forall|i: int|
                    0 <= i < t2.len() ==> #[trigger] t2[i] != 34)),
            has_canon ==> b@ == spec_metadata_json(t0) && (forall|i: int|
                0 <= i < t0.len() ==> #[trigger] t0[i] != 34),
            has_canon ==> e0 == "{\"classifier_base64\":\"".spec_bytes().len(),
            has_canon ==> e <= e0 + t0.len(),
        decreases b@.len() - e,
    {
        proof {
            if has_canon {
                lemma_metadata_json_pieces(b@, t0);
                lemma_close_lit_heads();
                if e == e0 + t0.len() {
                    assert(b@.subrange(e as int, b@.len() as int)[0] == b@[e as int]);
                    assert(false);
                }
                assert(b@.subrange(e0 as int, e0 + t0.len() as int)[e - e0] == b@[e as int]);
            }
        }
        t.push(b[e]);
        proof {
            assert(b@.subrange(e0 as int, e + 1) =~= b@.subrange(e0 as int, e as int).push(
                b@[e as int],
            ));
        }
        e += 1;
    }
    proof {
        if has_canon {
            lemma_metadata_json_pieces(b@, t0);
            if e < e0 + t0.len() {
                assert(b@.subrange(e0 as int, e0 + t0.len() as int)[e - e0] == b@[e as int]);
                assert(b@[e as int] != 34);
                assert(e < b@.len());
                assert(false);
            }
            assert(e == e0 + t0.len());
        }
    }
    let e1 = match match_lit(b, e, "\"}") {
        None => return Err(ParseError::Malformed),
        Some(p) => p,
    };
    if e1 != b.len() {
        return Err(ParseError::Malformed);
    }
    proof {
        lemma_subrange_chain(b@, 0, e0 as int, e as int);
        lemma_subrange_chain(b@, 0, e as int, e1 as int);
        assert(b@.subrange(0, e1 as int) =~= b@);
        assert(b@ =~= spec_metadata_json(t@));
    }
    Ok(t)
}

/// A decimal run followed by a non-digit byte reads off unambiguously:
/// equal byte strings of that shape carry equal numbers and tails.
proof fn lemma_digit_run_unambiguous(a: int, b: int, t1: Seq<u8>, t2: Seq<u8>)
    requires
        a >= 0,
        b >= 0,
        digits_of(a) + t1 == digits_of(b) + t2,
        t1.len() > 0 && !is_digit(t1[0]),
        t2.len() > 0 && !is_digit(t2[0]),
    ensures
        a == b,
        t1 == t2,
{
    lemma_digits_are_digits(a);
    lemma_digits_are_digits(b);
    let da = digits_of(a);
    let db = digits_of(b);
    if da.len() < db.len() {
        assert((da + t1)[da.len() as int] == t1[0]);
        assert((db + t2)[da.len() as int] == db[da.len() as int]);
        assert(is_digit(db[da.len() as int]));
        assert(false);
    }
    if db.len() < da.len() {
        assert((db + t2)[db.len() as int] == t2[0]);
        assert((da + t1)[db.len() as int] == da[db.len() as int]);
        assert(is_digit(da[db.len() as int]));
        assert(false);
    }
    assert(da =~= db) by {
        assert(forall|i: int| 0 <= i < da.len() ==> (da + t1)[i] == #[trigger] da[i]);
        assert(forall|i: int| 0 <= i < db.len() ==> (db + t2)[i] == #[trigger] db[i]);
    }
    lemma_digits_injective(a, b);
    assert((da + t1).len() == (db + t2).len());
    assert(t1.len() == t2.len());
    assert(t1 =~= t2) by {
        assert(forall|i: int|
            0 <= i < t1.len() ==> (da + t1)[da.len() + i] == #[trigger] t1[i]);
        assert(forall|i: int|
            0 <= i < t2.len() ==> (db + t2)[db.len() + i] == #[trigger] t2[i]);
    }
}

/// Stripping a shared prefix of equal byte strings leaves equal tails.
proof fn lemma_strip_prefix(p: Seq<u8>, x: Seq<u8>, y: Seq<u8>)
    requires
        p + x == p + y,
    ensures
        x == y,
{
    assert((p + x).len() == p.len() + x.len());
    assert((p + y).len() == p.len() + y.len());
    assert(x.len() == y.len());
    assert(x =~= y) by {
        assert(forall|i: int| 0 <= i < x.len() ==> (p + x)[p.len() + i] == #[trigger] x[i]);
        assert(forall|i: int| 0 <= i < y.len() ==> (p + y)[p.len() + i] == #[trigger] y[i]);
    }
}

/// The first byte of the features separator is a comma, not a digit.
proof fn lemma_features_separator_head()
    ensures
        ",\"features\":{".spec_bytes().len() >= 1,
        ",\"features\":{".spec_bytes()[0] == 44u8,
{
    reveal_strlit(",\"features\":{");
    let s = ",\"features\":{";
    assert(vstd::string::is_ascii(s));
    vstd::utf8::is_ascii_chars_encode_utf8(s@);
    assert(s.spec_bytes()[0] == s@[0] as u8);
}

/// The first byte of the batch separator is a comma, not a digit.
proof fn lemma_batch_separator_head()
    ensures
        ",\"batch\":[".spec_bytes().len() >= 1,
        ",\"batch\":[".spec_bytes()[0] == 44u8,
{
    reveal_strlit(",\"batch\":[");
    let s = ",\"batch\":[";
    assert(vstd::string::is_ascii(s));
    vstd::utf8::is_ascii_chars_encode_utf8(s@);
    assert(s.spec_bytes()[0] == s@[0] as u8);
}

/// The first byte of the classification separator is a comma, not a
/// digit.
proof fn lemma_classification_separator_head()
    ensures
        ",\"classification\":\"".spec_bytes().len() >= 1,
        ",\"classification\":\"".spec_bytes()[0] == 44u8,
{
    reveal_strlit(",\"classification\":\"");
    let s = ",\"classification\":\"";
    assert(vstd::string::is_ascii(s));
    vstd::utf8::is_ascii_chars_encode_utf8(s@);
    assert(s.spec_bytes()[0] == s@[0] as u8);
}

/// An identifier written after the shared message prefix and closed by a
/// shared non-digit byte is pinned down by the message bytes.
proof fn lemma_prefixed_id_determined(id1: u64, r1: Seq<u8>, id2: u64, r2: Seq<u8>, h: u8)
    requires
        "{\"batch_id\":".spec_bytes() + digits_of(id1 as int) + r1 == "{\"batch_id\":".spec_bytes()
            + digits_of(id2 as int) + r2,
        r1.len() > 0 && r1[0] == h,
        r2.len() > 0 && r2[0] == h,
        !is_digit(h),
    ensures
        id1 == id2,
        r1 == r2,
{
    let p = "{\"batch_id\":".spec_bytes();
    assert(p + digits_of(id1 as int) + r1 =~= p + (digits_of(id1 as int) + r1));
    assert(p + digits_of(id2 as int) + r2 =~= p + (digits_of(id2 as int) + r2));
    lemma_strip_prefix(p, digits_of(id1 as int) + r1, digits_of(id2 as int) + r2);
    lemma_digit_run_unambiguous(id1 as int, id2 as int, r1, r2);
}

/// The batch identifier is the sole correlation key, and the message
/// bytes pin it down: two feature messages with the same bytes carry the
/// same batch identifier, so the key survives a process boundary
/// unchanged, for every identifier value.
pub proof fn lemma_feature_json_determines_batch_id(
    id1: u64,
    fv1: FeatureVector,
    id2: u64,
    fv2: FeatureVector,
)
    requires
        spec_feature_json(id1, fv1) == spec_feature_json(id2, fv2),
    ensures
        id1 == id2,
{
    let p = "{\"batch_id\":".spec_bytes();
    let sep = ",\"features\":{".spec_bytes();
    let r1 = (sep + feature_body(fv1)) + "}}".spec_bytes();
    let r2 = (sep + feature_body(fv2)) + "}}".spec_bytes();
    lemma_features_separator_head();
    lemma_feature_json_reassociated(id1, fv1);
    lemma_feature_json_reassociated(id2, fv2);
    assert(r1[0] == sep[0] && r2[0] == sep[0]);
    lemma_prefixed_id_determined(id1, r1, id2, r2, sep[0]);
}

/// Regrouping the concatenations of a feature message around its
/// identifier run.
proof fn lemma_feature_json_reassociated(id: u64, fv: FeatureVector)
    ensures
        spec_feature_json(id, fv) == ("{\"batch_id\":".spec_bytes() + digits_of(id as int)) + ((
        ",\"features\":{".spec_bytes() + feature_body(fv)) + "}}".spec_bytes()),
{
    let p = "{\"batch_id\":".spec_bytes();
    let d = digits_of(id as int);
    let sep = ",\"features\":{".spec_bytes();
    let close = "}}".spec_bytes();
    let g1 = mag_fields(fv);
    let g2 = x_fields(fv);
    let g3 = y_fields(fv);
    let g4 = z_fields(fv);
    let x = p + d;
    let y = x + sep;
    let b = ((g1 + g2) + g3) + g4;
    assert(spec_feature_json(id, fv) == ((((y + g1) + g2) + g3) + g4) + close);
    vstd::seq_lib::lemma_concat_associative(y, g1, g2);
    vstd::seq_lib::lemma_concat_associative(y, g1 + g2, g3);
    vstd::seq_lib::lemma_concat_associative(y, (g1 + g2) + g3, g4);
    assert((((y + g1) + g2) + g3) + g4 == y + b);
    vstd::seq_lib::lemma_concat_associative(x, sep, b);
    assert(y + b == x + (sep + b));
    vstd::seq_lib::lemma_concat_associative(x, sep + b, close);
    assert((x + (sep + b)) + close == x + ((sep + b) + close));
    reveal(feature_body);
    assert(feature_body(fv) == b);
}

/// The canonical encoding of seven statistics under the mag series'
/// field names.
#[verifier::opaque]
pub open spec fn mag_fields_st(st: SeriesStats) -> Seq<u8> {
    spec_stats_fields(
        "\"mean_mag\":".spec_bytes(),
        ",\"std_dev_mag\":".spec_bytes(),
        ",\"min_mag\":".spec_bytes(),
        ",\"max_mag\":".spec_bytes(),
        ",\"coeff_var_mag\":".spec_bytes(),
        ",\"percentile_25_mag\":".spec_bytes(),
        ",\"percentile_75_mag\":".spec_bytes(),
        st,
    )
}

/// Seven statistics under the mag series' field names stand closed at
/// `pos`.
pub open spec fn mag_fields_st_at(b: Seq<u8>, pos: int, st: SeriesStats) -> bool {
    &&& 0 <= pos
    &&& pos + mag_fields_st(st).len() <= b.len()
    &&& b.subrange(pos, pos + mag_fields_st(st).len() as int) == mag_fields_st(st)
    &&& stats_sendable(st)
    &&& (pos + mag_fields_st(st).len() == b.len() || !is_digit(
        b[pos + mag_fields_st(st).len()],
    ))
}

/// The canonical encoding of the mag series' seven named statistics.
pub open spec fn mag_fields(fv: FeatureVector) -> Seq<u8> {
    mag_fields_st(fv.mag)
}

/// The mag series' statistics stand closed at `pos`.
pub open spec fn mag_fields_at(b: Seq<u8>, pos: int, fv: FeatureVector) -> bool {
    mag_fields_st_at(b, pos, fv.mag)
}

/// The canonical encoding of seven statistics under the x series'
/// field names.
#[verifier::opaque]
pub open spec fn x_fields_st(st: SeriesStats) -> Seq<u8> {
    spec_stats_fields(
        ",\"mean_x\":".spec_bytes(),
        ",\"std_dev_x\":".spec_bytes(),
        ",\"min_x\":".spec_bytes(),
        ",\"max_x\":".spec_bytes(),
        ",\"coeff_var_x\":".spec_bytes(),
        ",\"percentile_25_x\":".spec_bytes(),
        ",\"percentile_75_x\":".spec_bytes(),
        st,
    )
}

/// Seven statistics under the x series' field names stand closed at
/// `pos`.
pub open spec fn x_fields_st_at(b: Seq<u8>, pos: int, st: SeriesStats) -> bool {
    &&& 0 <= pos
    &&& pos + x_fields_st(st).len() <= b.len()
    &&& b.subrange(pos, pos + x_fields_st(st).len() as int) == x_fields_st(st)
    &&& stats_sendable(st)
    &&& (pos + x_fields_st(st).len() == b.len() || !is_digit(
        b[pos + x_fields_st(st).len()],
    ))
}

/// The canonical encoding of the x series' seven named statistics.
pub open spec fn x_fields(fv: FeatureVector) -> Seq<u8> {
    x_fields_st(fv.x)
}

/// The x series' statistics stand closed at `pos`.
pub open spec fn x_fields_at(b: Seq<u8>, pos: int, fv: FeatureVector) -> bool {
    x_fields_st_at(b, pos, fv.x)
}

/// The canonical encoding of seven statistics under the y series'
/// field names.
#[verifier::opaque]
pub open spec fn y_fields_st(st: SeriesStats) -> Seq<u8> {
    spec_stats_fields(
        ",\"mean_y\":".spec_bytes(),
        ",\"std_dev_y\":".spec_bytes(),
        ",\"min_y\":".spec_bytes(),
        ",\"max_y\":".spec_bytes(),
        ",\"coeff_var_y\":".spec_bytes(),
        ",\"percentile_25_y\":".spec_bytes(),
        ",\"percentile_75_y\":".spec_bytes(),
        st,
    )
}

/// Seven statistics under the y series' field names stand closed at
/// `pos`.
pub open spec fn y_fields_st_at(b: Seq<u8>, pos: int, st: SeriesStats) -> bool {
    &&& 0 <= pos
    &&& pos + y_fields_st(st).len() <= b.len()
    &&& b.subrange(pos, pos + y_fields_st(st).len() as int) == y_fields_st(st)
    &&& stats_sendable(st)
    &&& (pos + y_fields_st(st).len() == b.len() || !is_digit(
        b[pos + y_fields_st(st).len()],
    ))
}

/// The canonical encoding of the y series' seven named statistics.
pub open spec fn y_fields(fv: FeatureVector) -> Seq<u8> {
    y_fields_st(fv.y)
}

/// The y series' statistics stand closed at `pos`.
pub open spec fn y_fields_at(b: Seq<u8>, pos: int, fv: FeatureVector) -> bool {
    y_fields_st_at(b, pos, fv.y)
}

/// The canonical encoding of seven statistics under the z series'
/// field names.
#[verifier::opaque]
pub open spec fn z_fields_st(st: SeriesStats) -> Seq<u8> {
    spec_stats_fields(
        ",\"mean_z\":".spec_bytes(),
        ",\"std_dev_z\":".spec_bytes(),
        ",\"min_z\":".spec_bytes(),
        ",\"max_z\":".spec_bytes(),
        ",\"coeff_var_z\":".spec_bytes(),
        ",\"percentile_25_z\":".spec_bytes(),
        ",\"percentile_75_z\":".spec_bytes(),
        st,
    )
}

/// Seven statistics under the z series' field names stand closed at
/// `pos`.
pub open spec fn z_fields_st_at(b: Seq<u8>, pos: int, st: SeriesStats) -> bool {
    &&& 0 <= pos
    &&& pos + z_fields_st(st).len() <= b.len()
    &&& b.subrange(pos, pos + z_fields_st(st).len() as int) == z_fields_st(st)
    &&& stats_sendable(st)
    &&& (pos + z_fields_st(st).len() == b.len() || !is_digit(
        b[pos + z_fields_st(st).len()],
    ))
}

/// The canonical encoding of the z series' seven named statistics.
pub open spec fn z_fields(fv: FeatureVector) -> Seq<u8> {
    z_fields_st(fv.z)
}

/// The z series' statistics stand closed at `pos`.
pub open spec fn z_fields_at(b: Seq<u8>, pos: int, fv: FeatureVector) -> bool {
    z_fields_st_at(b, pos, fv.z)
}

/// The four series' statistics of a feature message, between the shared
/// prefix and the closing braces.
#[verifier::opaque]
spec fn feature_body(fv: FeatureVector) -> Seq<u8> {
    mag_fields(fv) + x_fields(fv) + y_fields(fv) + z_fields(fv)
}

/// Two sensor-batch messages with the same bytes carry the same batch
/// identifier.
pub proof fn lemma_batch_json_determines_batch_id(
    id1: u64,
    w1: Seq<Sample>,
    id2: u64,
    w2: Seq<Sample>,
)
    requires
        spec_batch_json(id1, w1) == spec_batch_json(id2, w2),
    ensures
        id1 == id2,
{
    let p = "{\"batch_id\":".spec_bytes();
    let sep = ",\"batch\":[".spec_bytes();
    let r1 = sep + spec_samples_json(w1) + "]}".spec_bytes();
    let r2 = sep + spec_samples_json(w2) + "]}".spec_bytes();
    lemma_batch_separator_head();
    assert(spec_batch_json(id1, w1) =~= p + digits_of(id1 as int) + r1);
    assert(spec_batch_json(id2, w2) =~= p + digits_of(id2 as int) + r2);
    assert(r1[0] == sep[0] && r2[0] == sep[0]);
    lemma_prefixed_id_determined(id1, r1, id2, r2, sep[0]);
}

/// Two classification result messages with the same bytes carry the same
/// batch identifier.
pub proof fn lemma_result_json_determines_batch_id(id1: u64, l1: Label, id2: u64, l2: Label)
    requires
        spec_result_json(id1, l1) == spec_result_json(id2, l2),
    ensures
        id1 == id2,
{
    let p = "{\"batch_id\":".spec_bytes();
    let sep = ",\"classification\":\"".spec_bytes();
    let r1 = sep + spec_label_name(l1) + "\"}".spec_bytes();
    let r2 = sep + spec_label_name(l2) + "\"}".spec_bytes();
    lemma_classification_separator_head();
    assert(spec_result_json(id1, l1) =~= p + digits_of(id1 as int) + r1);
    assert(spec_result_json(id2, l2) =~= p + digits_of(id2 as int) + r2);
    assert(r1[0] == sep[0] && r2[0] == sep[0]);
    lemma_prefixed_id_determined(id1, r1, id2, r2, sep[0]);
}

/// Two equal sensor-batch messages agree on the identifier and on
/// whether the batch is empty.
pub proof fn lemma_batch_json_empty_agrees(id1: u64, w1: Seq<Sample>, id2: u64, w2: Seq<Sample>)
    requires
        spec_batch_json(id1, w1) == spec_batch_json(id2, w2),
    ensures
        id1 == id2,
        (w1.len() == 0) == (w2.len() == 0),
{
    lemma_batch_json_determines_batch_id(id1, w1, id2, w2);
    let b = spec_batch_json(id1, w1);
    lemma_batch_json_pieces(b, id1, w1);
    lemma_batch_json_pieces(b, id2, w2);
    lemma_sample_lit_heads();
    assert(spec_samples_json(w1) + "]}".spec_bytes() == spec_samples_json(w2)
        + "]}".spec_bytes());
    assert(spec_samples_json(w1).len() == spec_samples_json(w2).len());
    if w1.len() == 0 {
        assert(spec_samples_json(w1).len() == 0);
    } else {
        assert(spec_samples_json(w1).len() >= 1) by {
            lemma_samples_json_nonempty(w1);
        }
    }
    if w2.len() == 0 {
        assert(spec_samples_json(w2).len() == 0);
    } else {
        assert(spec_samples_json(w2).len() >= 1) by {
            lemma_samples_json_nonempty(w2);
        }
    }
}

/// A non-empty reading list has a non-empty encoding.
proof fn lemma_samples_json_nonempty(w: Seq<Sample>)
    requires
        w.len() >= 1,
    ensures
        spec_samples_json(w).len() >= 1,
    decreases w.len(),
{
    lemma_sample_lit_heads();
    if w.len() == 1 {
        assert(spec_sample_json(w[0]).len() >= "{\"x\":".spec_bytes().len());
    } else {
        lemma_samples_json_nonempty(w.drop_last());
    }
}

/// The telemetry marker opening one message's processing.
pub open spec fn spec_begin_marker(id: u64) -> Seq<u8> {
    "function:begin:".spec_bytes() + digits_of(id as int)
}

/// The telemetry marker closing one message's processing.
pub open spec fn spec_end_marker(id: u64) -> Seq<u8> {
    "function:end:".spec_bytes() + digits_of(id as int)
}

/// Builds the telemetry marker opening one message's processing.
pub fn build_begin_marker(id: u64) -> (r: Vec<u8>)
    ensures
        r@ == spec_begin_marker(id),
{
    let mut out: Vec<u8> = Vec::new();
    push_lit("function:begin:", &mut out);
    push_digits(id, &mut out);
    out
}

/// Builds the telemetry marker closing one message's processing.
pub fn build_end_marker(id: u64) -> (r: Vec<u8>)
    ensures
        r@ == spec_end_marker(id),
{
    let mut out: Vec<u8> = Vec::new();
    push_lit("function:end:", &mut out);
    push_digits(id, &mut out);
    out
}

} // verus!
