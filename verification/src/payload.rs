use vstd::prelude::*;

use crate::data_storage::DecodeError;
use crate::geometry::{angle_from_units, AngleWrapping, Pose};

verus! {

/// The payload format for localization envelopes is textual: three decimal
/// integers (x and y in micro-units, then the raw heading in angle units),
/// each with an optional leading minus sign, separated by two semicolons.

/// The byte of the field separator, `;`.
pub const SEMICOLON: u8 = 59;

/// The byte of the sign marker, `-`.
pub const MINUS: u8 = 45;

/// Whether `b` is an ASCII decimal digit.
pub open spec fn is_digit(b: u8) -> bool {
    48 <= b <= 57
}

/// The value of a sequence of decimal digits, most significant first.
pub open spec fn digits_val(s: Seq<u8>) -> int
    decreases s.len(),
{
    if s.len() == 0 {
        0
    } else {
        digits_val(s.drop_last()) * 10 + (s.last() - 48)
    }
}

/// A non-empty, all-digit sequence.
pub open spec fn is_digit_seq(s: Seq<u8>) -> bool {
    s.len() > 0 && forall|i: int| 0 <= i < s.len() ==> is_digit(#[trigger] s[i])
}

/// A decimal integer literal: digits, optionally preceded by a minus sign.
pub open spec fn is_int_literal(s: Seq<u8>) -> bool {
    if s.len() > 0 && s[0] == MINUS {
        is_digit_seq(s.drop_first())
    } else {
        is_digit_seq(s)
    }
}

/// The mathematical value of an integer literal.
pub open spec fn int_literal_val(s: Seq<u8>) -> int {
    if s.len() > 0 && s[0] == MINUS {
        -digits_val(s.drop_first())
    } else {
        digits_val(s)
    }
}

/// The value of one field: a decode failure when the bytes are not an
/// integer literal, an out-of-range failure when the value does not fit a
/// signed 64-bit integer, the value otherwise.
pub open spec fn field_val_i64(s: Seq<u8>) -> Result<int, DecodeError> {
    if !is_int_literal(s) {
        Err(DecodeError::Malformed)
    } else if int_literal_val(s) < i64::MIN || int_literal_val(s) > i64::MAX {
        Err(DecodeError::OutOfRange)
    } else {
        Ok(int_literal_val(s))
    }
}

/// Positions `i < j` hold the only two semicolons of `s`.
pub open spec fn semis_at(s: Seq<u8>, i: int, j: int) -> bool {
    &&& 0 <= i < j < s.len()
    &&& s[i] == SEMICOLON
    &&& s[j] == SEMICOLON
    &&& forall|k: int| 0 <= k < s.len() && (#[trigger] s[k]) == SEMICOLON ==> k == i || k == j
}

/// Whether `s` holds exactly two semicolons.
pub open spec fn has_two_semis(s: Seq<u8>) -> bool {
    exists|i: int, j: int| semis_at(s, i, j)
}

/// The separator positions are unique, so the split into fields is
/// well defined.
pub proof fn lemma_semis_at_unique(s: Seq<u8>, i1: int, j1: int, i2: int, j2: int)
    requires
        semis_at(s, i1, j1),
        semis_at(s, i2, j2),
    ensures
        i1 == i2,
        j1 == j2,
{
    assert(i1 == i2 || i1 == j2);
    assert(j1 == i2 || j1 == j2);
    assert(i2 == i1 || i2 == j1);
    assert(j2 == i1 || j2 == j1);
}

/// The decoded pose of a payload: split at the two semicolons, read the
/// three fields as integers, and wrap the heading into the turn centred on
/// zero. Fails with the first field's error, in field order, and with a
/// shape failure when the separators are missing or in excess.
pub open spec fn decode_pose_spec(s: Seq<u8>) -> Result<Pose, DecodeError> {
    if !has_two_semis(s) {
        Err(DecodeError::Malformed)
    } else {
        let (i, j) = choose|i: int, j: int| semis_at(s, i, j);
        match field_val_i64(s.subrange(0, i)) {
            Err(e) => Err(e),
            Ok(x) => match field_val_i64(s.subrange(i + 1, j)) {
                Err(e) => Err(e),
                Ok(y) => match field_val_i64(s.subrange(j + 1, s.len() as int)) {
                    Err(e) => Err(e),
                    Ok(th) => Ok(
                        Pose {
                            x: x as i64,
                            y: y as i64,
                            theta: angle_from_units(th, AngleWrapping::PlusMinusPi),
                        },
                    ),
                },
            },
        }
    }
}

/// A sequence of digits has a non-negative value.
pub proof fn lemma_digits_val_nonneg(s: Seq<u8>)
    requires
        forall|i: int| 0 <= i < s.len() ==> is_digit(#[trigger] s[i]),
    ensures
        digits_val(s) >= 0,
    decreases s.len(),
{
    if s.len() > 0 {
        lemma_digits_val_nonneg(s.drop_last());
    }
}

/// Extending a digit sequence to the right can only grow its value.
pub proof fn lemma_digits_val_prefix(s: Seq<u8>, n: int)
    requires
        0 <= n <= s.len(),
        forall|i: int| 0 <= i < s.len() ==> is_digit(#[trigger] s[i]),
    ensures
        digits_val(s.take(n)) <= digits_val(s),
    decreases s.len() - n,
{
    if n == s.len() {
        assert(s.take(n) =~= s);
    } else {
        assert(s.take(n + 1).drop_last() =~= s.take(n));
        assert(s.take(n + 1).last() == s[n]);
        assert(forall|i: int| 0 <= i < s.take(n).len() ==> is_digit(#[trigger] s.take(n)[i]));
        lemma_digits_val_nonneg(s.take(n));
        assert(digits_val(s.take(n + 1)) == digits_val(s.take(n)) * 10 + (s[n] - 48));
        assert(digits_val(s.take(n)) * 10 >= digits_val(s.take(n))) by (nonlinear_arith)
            requires digits_val(s.take(n)) >= 0;
        lemma_digits_val_prefix(s, n + 1);
    }
}

/// The first semicolon at or after `from`, if any.
fn find_semi(v: &Vec<u8>, from: usize) -> (r: Option<usize>)
    requires
        from <= v@.len(),
    ensures
        match r {
            Some(i) => from <= i < v@.len() && v@[i as int] == SEMICOLON && (forall|k: int|
                from <= k < i ==> v@[k] != SEMICOLON),
            None => forall|k: int| from <= k < v@.len() ==> v@[k] != SEMICOLON,
        },
{
    let n = v.len();
    let mut i = from;
    while i < n
        invariant
            from <= i <= n,
            n == v@.len(),
            forall|k: int| from <= k < i ==> v@[k] != SEMICOLON,
        decreases n - i,
    {
        if v[i] == SEMICOLON {
            return Some(i);
        }
        i += 1;
    }
    None
}

/// Parse the bytes of `v` from `start` (inclusive) to `end` (exclusive) as
/// a signed decimal integer, exactly as `field_val_i64` values that range.
fn parse_field(v: &Vec<u8>, start: usize, end: usize) -> (r: Result<i64, DecodeError>)
    requires
        start <= end <= v@.len(),
    ensures
        match field_val_i64(v@.subrange(start as int, end as int)) {
            Ok(val) => r is Ok && r->Ok_0 == val,
            Err(e) => r == Err::<i64, DecodeError>(e),
        },
{
    let ghost s = v@.subrange(start as int, end as int);
    if start == end {
        return Err(DecodeError::Malformed);
    }
    let neg = v[start] == MINUS;
    let dstart = if neg {
        start + 1
    } else {
        start
    };
    let ghost dseq = v@.subrange(dstart as int, end as int);
    proof {
        assert(s[0] == v@[start as int]);
        if neg {
            assert(s.drop_first() =~= dseq);
        } else {
            assert(s =~= dseq);
        }
        assert(is_int_literal(s) == is_digit_seq(dseq));
        assert(is_int_literal(s) ==> int_literal_val(s) == if neg {
            -digits_val(dseq)
        } else {
            digits_val(dseq)
        });
    }
    if dstart == end {
        return Err(DecodeError::Malformed);
    }
    let mut i = dstart;
    while i < end
        invariant
            start <= dstart <= i <= end <= v@.len(),
            s == v@.subrange(start as int, end as int),
            dseq == v@.subrange(dstart as int, end as int),
            is_int_literal(s) == is_digit_seq(dseq),
            forall|k: int| dstart <= k < i ==> is_digit(#[trigger] v@[k]),
        decreases end - i,
    {
        let b = v[i];
        if b < 48 || b > 57 {
            proof {
                assert(dseq[i - dstart] == v@[i as int]);
                assert(!is_digit_seq(dseq));
            }
            return Err(DecodeError::Malformed);
        }
        i += 1;
    }
    proof {
        assert(forall|k: int| 0 <= k < dseq.len() ==> is_digit(#[trigger] dseq[k]));
        assert(is_digit_seq(dseq));
        assert(is_int_literal(s));
    }
    let bound: u64 = if neg {
        9223372036854775808
    } else {
        9223372036854775807
    };
    let mut acc: u64 = 0;
    let mut i = dstart;
    while i < end
        invariant
            start <= dstart <= i <= end <= v@.len(),
            forall|k: int| dstart <= k < end ==> is_digit(#[trigger] v@[k]),
            forall|k: int| 0 <= k < dseq.len() ==> is_digit(#[trigger] dseq[k]),
            s == v@.subrange(start as int, end as int),
            dseq == v@.subrange(dstart as int, end as int),
            is_int_literal(s),
            int_literal_val(s) == if neg {
                -digits_val(dseq)
            } else {
                digits_val(dseq)
            },
            dstart < end,
            acc <= bound,
            bound == if neg {
                9223372036854775808u64
            } else {
                9223372036854775807u64
            },
            acc as int == digits_val(v@.subrange(dstart as int, i as int)),
        decreases end - i,
    {
        let b = v[i];
        let d: u64 = (b - 48) as u64;
        proof {
            assert(v@.subrange(dstart as int, i + 1).drop_last() =~= v@.subrange(
                dstart as int,
                i as int,
            ));
            assert(v@.subrange(dstart as int, i + 1).last() == v@[i as int]);
            vstd::arithmetic::div_mod::lemma_fundamental_div_mod((bound - d) as int, 10);
            vstd::arithmetic::div_mod::lemma_mod_bound((bound - d) as int, 10);
        }
        if acc > (bound - d) / 10 {
            proof {
                assert(10 * (acc as int) >= 10 * (((bound - d) as int) / 10 + 1));
                assert(digits_val(v@.subrange(dstart as int, i + 1)) > bound as int);
                assert(v@.subrange(dstart as int, i + 1) =~= dseq.take(i + 1 - dstart));
                lemma_digits_val_prefix(dseq, i + 1 - dstart);
                assert(digits_val(dseq) > bound as int);
                if neg {
                    assert(int_literal_val(s) < i64::MIN);
                } else {
                    assert(int_literal_val(s) > i64::MAX);
                }
            }
            return Err(DecodeError::OutOfRange);
        }
        acc = acc * 10 + d;
        i += 1;
    }
    proof {
        assert(v@.subrange(dstart as int, end as int) == dseq);
        assert(acc as int == digits_val(dseq));
        lemma_digits_val_nonneg(dseq);
        if neg {
            assert(int_literal_val(s) == -(acc as int));
        }
    }
    if neg {
        if acc == 9223372036854775808 {
            Ok(i64::MIN)
        } else {
            Ok(-(acc as i64))
        }
    } else {
        Ok(acc as i64)
    }
}

/// Decode a payload into a pose, exactly as `decode_pose_spec` describes.
pub fn decode_pose(v: &Vec<u8>) -> (r: Result<Pose, DecodeError>)
    ensures
        r == decode_pose_spec(v@),
{
    let n = v.len();
    proof {
        assert(n == v@.len());
    }
    let first = find_semi(v, 0);
    let i = match first {
        Some(i) => i,
        None => {
            proof {
                assert(!has_two_semis(v@));
            }
            return Err(DecodeError::Malformed);
        },
    };
    let second = find_semi(v, i + 1);
    let j = match second {
        Some(j) => j,
        None => {
            proof {
                assert forall|a: int, b: int| !semis_at(v@, a, b) by {
                    if semis_at(v@, a, b) {
                        assert(v@[b] == SEMICOLON);
                        assert(a == i || b == i);
                        assert(a < b);
                    }
                }
                assert(!has_two_semis(v@));
            }
            return Err(DecodeError::Malformed);
        },
    };
    let third = find_semi(v, j + 1);
    match third {
        Some(e) => {
            proof {
                assert forall|a: int, b: int| !semis_at(v@, a, b) by {
                    if semis_at(v@, a, b) {
                        assert(v@[i as int] == SEMICOLON);
                        assert(v@[j as int] == SEMICOLON);
                        assert(v@[e as int] == SEMICOLON);
                        assert(i < j < e);
                    }
                }
                assert(!has_two_semis(v@));
            }
            return Err(DecodeError::Malformed);
        },
        None => {},
    }
    proof {
        assert(semis_at(v@, i as int, j as int));
        assert(has_two_semis(v@));
        let (ci, cj) = choose|a: int, b: int| semis_at(v@, a, b);
        lemma_semis_at_unique(v@, ci, cj, i as int, j as int);
    }
    let x = match parse_field(v, 0, i) {
        Ok(x) => x,
        Err(e) => {
            return Err(e);
        },
    };
    let y = match parse_field(v, i + 1, j) {
        Ok(y) => y,
        Err(e) => {
            return Err(e);
        },
    };
    let th = match parse_field(v, j + 1, v.len()) {
        Ok(t) => t,
        Err(e) => {
            return Err(e);
        },
    };
    Ok(Pose { x, y, theta: crate::geometry::Angle::new(th, AngleWrapping::PlusMinusPi) })
}

} // verus!
