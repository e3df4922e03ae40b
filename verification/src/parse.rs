//! Parsing of string-encoded decimal coordinates.
//!
//! A coordinate field is plain decimal notation: an optional minus sign,
//! one to nine integer digits, and optionally a dot followed by up to six
//! fraction digits.  The value is held exactly, in millionths of a degree,
//! so no precision is lost on any accepted field.  Anything else is
//! rejected with `ParseError`.

use vstd::prelude::*;
use crate::RouteError;

verus! {

/// Whether the byte is an ASCII decimal digit.
pub open spec fn is_digit(b: u8) -> bool {
    48 <= b <= 57
}

/// Whether every byte of the sequence is a digit.
pub open spec fn all_digits(s: Seq<u8>) -> bool {
    forall|i: int| 0 <= i < s.len() ==> is_digit(#[trigger] s[i])
}

/// The number the digit bytes spell, most significant digit first.
pub open spec fn digits_val(s: Seq<u8>) -> int
    decreases s.len(),
{
    if s.len() == 0 {
        0
    } else {
        digits_val(s.drop_last()) * 10 + (s.last() - 48)
    }
}

/// The `n`-th power of ten.
pub open spec fn pow10(n: nat) -> nat
    decreases n,
{
    if n == 0 {
        1
    } else {
        pow10((n - 1) as nat) * 10
    }
}

/// A digit string spells a value below ten to its length.
pub proof fn lemma_digits_val_bound(s: Seq<u8>)
    requires
        all_digits(s),
    ensures
        0 <= digits_val(s) < pow10(s.len()),
    decreases s.len(),
{
    if s.len() > 0 {
        assert(all_digits(s.drop_last())) by {
            assert(forall|i: int| 0 <= i < s.len() - 1 ==> s.drop_last()[i] == s[i]);
        }
        lemma_digits_val_bound(s.drop_last());
        assert(is_digit(s.last()));
    }
}

/// Whether position `d` holds the decimal dot: a dot with nothing but
/// digits before it.  At most one position can satisfy this.
pub open spec fn dot_at(u: Seq<u8>, d: int) -> bool {
    &&& 0 <= d < u.len()
    &&& u[d] == 46
    &&& all_digits(u.take(d))
}

/// The shape of an accepted coordinate with the sign removed: one to
/// nine integer digits, optionally followed by a dot and zero to six
/// fraction digits.
pub open spec fn valid_unsigned(u: Seq<u8>) -> bool {
    ||| (all_digits(u) && 1 <= u.len() <= 9)
    ||| (exists|d: int|
        #[trigger] dot_at(u, d) && 1 <= d <= 9 && all_digits(u.skip(d + 1)) && u.len() - d - 1
            <= 6)
}

/// The value of an accepted unsigned coordinate, in millionths.
pub open spec fn unsigned_micro(u: Seq<u8>) -> int {
    if all_digits(u) {
        digits_val(u) * 1000000
    } else {
        let d = choose|d: int| dot_at(u, d);
        digits_val(u.take(d)) * 1000000 + digits_val(u.skip(d + 1)) * pow10(
            (6 - (u.len() - d - 1)) as nat,
        )
    }
}

/// The shape of an accepted coordinate: an optional minus sign before
/// the unsigned form.
pub open spec fn valid_coord(s: Seq<u8>) -> bool {
    if s.len() > 0 && s[0] == 45 {
        valid_unsigned(s.skip(1))
    } else {
        valid_unsigned(s)
    }
}

/// The value of an accepted coordinate, in millionths of a degree.
pub open spec fn coord_micro(s: Seq<u8>) -> int {
    if s.len() > 0 && s[0] == 45 {
        -unsigned_micro(s.skip(1))
    } else {
        unsigned_micro(s)
    }
}

/// Ten to the `n`-th, for the six fraction scales.
fn pow10_small(n: u64) -> (r: u64)
    requires
        n <= 6,
    ensures
        r == pow10(n as nat),
{
    proof {
        reveal_with_fuel(pow10, 8);
    }
    if n == 0 {
        1
    } else if n == 1 {
        10
    } else if n == 2 {
        100
    } else if n == 3 {
        1000
    } else if n == 4 {
        10000
    } else if n == 5 {
        100000
    } else {
        1000000
    }
}

/// Powers of ten multiply as their exponents add.
pub proof fn lemma_pow10_add(a: nat, b: nat)
    ensures
        pow10(a + b) == pow10(a) * pow10(b),
    decreases b,
{
    if b == 0 {
        assert(pow10(0) == 1);
    } else {
        lemma_pow10_add(a, (b - 1) as nat);
        assert(pow10(a + b) == pow10((a + b - 1) as nat) * 10);
        assert((a + b - 1) as nat == a + ((b - 1) as nat));
        assert(pow10((a + b - 1) as nat) * 10 == (pow10(a) * pow10((b - 1) as nat)) * 10);
        assert((pow10(a) * pow10((b - 1) as nat)) * 10 == pow10(a) * (pow10((b - 1) as nat) * 10))
            by (nonlinear_arith);
        assert(pow10(b) == pow10((b - 1) as nat) * 10);
    }
}

/// Reads a coordinate field: an optional minus sign, one to nine
/// integer digits, optionally a dot and up to six fraction digits.
/// Returns the value in millionths of a degree, exactly; any other
/// shape is rejected with `ParseError`.
#[verifier::rlimit(100)]
pub fn parse_coord(s: &Vec<u8>) -> (r: Result<i64, RouteError>)
    ensures
        match r {
            Ok(v) => valid_coord(s@) && v == coord_micro(s@),
            Err(e) => e == RouteError::ParseError && !valid_coord(s@),
        },
{
    let n = s.len();
    let neg = n > 0 && s[0] == 45;
    let off: usize = if neg { 1 } else { 0 };
    let ghost u = s@.skip(off as int);
    proof {
        assert(u.len() == n - off);
        assert(forall|x: int| 0 <= x < u.len() ==> u[x] == s@[x + off]);
        if off == 0 {
            assert(u =~= s@);
        }
        reveal_with_fuel(pow10, 10);
    }

    let mut int_val: u64 = 0;
    let mut i: usize = off;
    while i < n && 48 <= s[i] && s[i] <= 57
        invariant
            off <= i <= n,
            n == s@.len(),
            u == s@.skip(off as int),
            u.len() == n - off,
            neg <==> (s@.len() > 0 && s@[0] == 45),
            neg ==> off == 1,
            !neg ==> off == 0 && u == s@,
            pow10(7) == 10000000,
            forall|x: int| 0 <= x < u.len() ==> u[x] == s@[x + off],
            forall|x: int| 0 <= x < i - off ==> is_digit(#[trigger] u[x]),
            i - off <= 9,
            int_val == digits_val(u.take(i - off)),
            int_val < pow10((i - off) as nat),
            pow10(9) == 1000000000,
        decreases n - i,
    {
        if i - off == 9 {
            // a tenth integer digit: no decomposition fits
            proof {
                assert(is_digit(u[i - off]));
                assert(u.len() > 9);
                assert forall|d: int| !(#[trigger] dot_at(u, d) && 1 <= d <= 9) by {
                    if 0 <= d <= 9 {
                        assert(is_digit(u[d]));
                    }
                }
            }
            return Err(RouteError::ParseError);
        }
        let dig = s[i] - 48;
        proof {
            assert(u.take(i + 1 - off).drop_last() =~= u.take(i - off));
            assert(u.take(i + 1 - off).last() == u[i - off]);
            assert(int_val * 10 < pow10((i - off) as nat) * 10) by (nonlinear_arith)
                requires
                    int_val < pow10((i - off) as nat),
            ;
            assert(pow10((i - off) as nat) * 10 == pow10((i + 1 - off) as nat));
            assert(pow10((i + 1 - off) as nat) <= pow10(9)) by {
                lemma_pow10_mono((i + 1 - off) as nat, 9);
            }
        }
        int_val = int_val * 10 + (dig as u64);
        i = i + 1;
    }
    let int_digits = i - off;
    if int_digits == 0 {
        // no integer digits at all
        proof {
            if u.len() > 0 {
                assert(!is_digit(u[0]));
                assert forall|d: int| !(#[trigger] dot_at(u, d) && 1 <= d <= 9) by {
                    if dot_at(u, d) && 1 <= d {
                        assert(is_digit(u.take(d)[0]));
                    }
                }
            }
        }
        return Err(RouteError::ParseError);
    }

    let ghost p = int_digits as int;
    if i == n {
        // digits only
        proof {
            assert(u.take(i - off) =~= u);
            lemma_digits_val_bound(u);
        }
        let micro = int_val * 1000000;
        if neg {
            return Ok(-(micro as i64));
        } else {
            return Ok(micro as i64);
        }
    }

    if !(s[i] == 46) {
        // something that is neither a digit nor the dot
        proof {
            assert(!is_digit(u[p]) && u[p] != 46);
            assert forall|d: int| !(#[trigger] dot_at(u, d) && 1 <= d <= 9) by {
                if dot_at(u, d) {
                    if d < p {
                        assert(is_digit(u[d]));
                    } else if d > p {
                        assert(is_digit(u.take(d)[p]));
                    }
                }
            }
        }
        return Err(RouteError::ParseError);
    }
    i = i + 1;

    let mut frac_val: u64 = 0;
    let mut fl: usize = 0;
    while i < n && 48 <= s[i] && s[i] <= 57
        invariant
            off + 1 <= i <= n,
            n == s@.len(),
            u == s@.skip(off as int),
            u.len() == n - off,
            neg <==> (s@.len() > 0 && s@[0] == 45),
            neg ==> off == 1,
            !neg ==> off == 0 && u == s@,
            pow10(7) == 10000000,
            forall|x: int| 0 <= x < u.len() ==> u[x] == s@[x + off],
            forall|x: int| 0 <= x < p ==> is_digit(#[trigger] u[x]),
            1 <= p <= 9,
            u[p] == 46,
            int_val == digits_val(u.take(p)),
            i - off == p + 1 + fl,
            fl <= 6,
            forall|x: int| p < x < i - off ==> is_digit(#[trigger] u[x]),
            frac_val == digits_val(u.subrange(p + 1, i - off)),
            frac_val < pow10(fl as nat),
            pow10(9) == 1000000000,
        decreases n - i,
    {
        if fl == 6 {
            // a seventh fraction digit: the fraction is too long
            proof {
                assert forall|d: int| !(#[trigger] dot_at(u, d) && 1 <= d <= 9 && u.len() - d - 1
                    <= 6) by {
                    if dot_at(u, d) {
                        if d < p {
                            assert(is_digit(u[d]));
                        } else if d > p {
                            assert(is_digit(u.take(d)[p]));
                        } else {
                            assert(u.len() - d - 1 >= 7);
                        }
                    }
                }
                assert(!all_digits(u)) by {
                    assert(!is_digit(u[p]));
                }
            }
            return Err(RouteError::ParseError);
        }
        let dig = s[i] - 48;
        proof {
            assert(u.subrange(p + 1, i + 1 - off).drop_last() =~= u.subrange(p + 1, i - off));
            assert(u.subrange(p + 1, i + 1 - off).last() == u[i - off]);
            assert(frac_val * 10 < pow10(fl as nat) * 10) by (nonlinear_arith)
                requires
                    frac_val < pow10(fl as nat),
            ;
            assert(pow10(fl as nat) * 10 == pow10((fl + 1) as nat));
            assert(pow10((fl + 1) as nat) <= pow10(7)) by {
                lemma_pow10_mono((fl + 1) as nat, 7);
            }
        }
        frac_val = frac_val * 10 + (dig as u64);
        fl = fl + 1;
        i = i + 1;
    }
    if i < n {
        // a non-digit inside the fraction
        proof {
            assert(!is_digit(u[i - off]));
            assert forall|d: int| !(#[trigger] dot_at(u, d) && 1 <= d <= 9 && all_digits(u.skip(d
                + 1))) by {
                if dot_at(u, d) {
                    if d < p {
                        assert(is_digit(u[d]));
                    } else if d > p {
                        assert(is_digit(u.take(d)[p]));
                    } else {
                        assert(!is_digit(u.skip(d + 1)[i - off - d - 1]));
                    }
                }
            }
            assert(!all_digits(u)) by {
                assert(!is_digit(u[p]));
            }
        }
        return Err(RouteError::ParseError);
    }

    // the whole field is consumed: int digits, dot, fl fraction digits
    proof {
        assert(u.len() == p + 1 + fl);
        assert(dot_at(u, p)) by {
            assert(forall|x: int| 0 <= x < p ==> #[trigger] u.take(p)[x] == u[x]);
        }
        assert(all_digits(u.skip(p + 1))) by {
            assert(forall|x: int|
                0 <= x < u.skip(p + 1).len() ==> #[trigger] u.skip(p + 1)[x] == u[x + p + 1]);
        }
        assert(valid_unsigned(u));
        let d0 = choose|d: int| dot_at(u, d);
        assert(dot_at(u, p));
        if d0 < p {
            assert(is_digit(u[d0]));
        } else if d0 > p {
            assert(is_digit(u.take(d0)[p]));
        }
        assert(d0 == p);
        assert(!all_digits(u)) by {
            assert(!is_digit(u[p]));
        }
        assert(u.subrange(p + 1, i - off) =~= u.skip(p + 1));
        lemma_digits_val_bound(u.take(p));
        lemma_pow10_mono((p) as nat, 9);
    }
    let scale = pow10_small(6 - (fl as u64));
    proof {
        assert(frac_val * scale < pow10(fl as nat) * pow10((6 - fl) as nat)) by (nonlinear_arith)
            requires
                frac_val < pow10(fl as nat),
                scale == pow10((6 - fl) as nat),
                scale >= 1,
        ;
        lemma_pow10_add(fl as nat, (6 - fl) as nat);
        assert(pow10(fl as nat) * pow10((6 - fl) as nat) == pow10(6));
    }
    let micro = int_val * 1000000 + frac_val * scale;
    if neg {
        Ok(-(micro as i64))
    } else {
        Ok(micro as i64)
    }
}

/// Powers of ten are at least one.
pub proof fn lemma_pow10_ge_one(n: nat)
    ensures
        pow10(n) >= 1,
    decreases n,
{
    if n > 0 {
        lemma_pow10_ge_one((n - 1) as nat);
    }
}

/// Powers of ten grow with the exponent.
pub proof fn lemma_pow10_mono(a: nat, b: nat)
    requires
        a <= b,
    ensures
        pow10(a) <= pow10(b),
    decreases b,
{
    if a < b {
        lemma_pow10_mono(a, (b - 1) as nat);
        lemma_pow10_ge_one((b - 1) as nat);
    }
}

} // verus!