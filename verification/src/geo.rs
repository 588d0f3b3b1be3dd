use vstd::prelude::*;

use crate::solar::{digit, is_digit};
use crate::text::{split_at_sep, split_bytes};
use crate::Error;

verus! {

/// The separator of the `lat,lon` field.
pub const COMMA: u8 = 44;

/// The decimal point.
pub const DOT: u8 = 46;

/// Every byte in `s` is a decimal digit.
pub open spec fn all_digits(s: Seq<u8>) -> bool {
    forall|i: int| 0 <= i < s.len() ==> is_digit(s[i])
}

/// Decides `all_digits` on the index range `[from, to)` of `v`.
fn range_digits(v: &Vec<u8>, from: usize, to: usize) -> (r: bool)
    requires
        from <= to <= v.len(),
    ensures
        r == all_digits(v@.subrange(from as int, to as int)),
{
    let mut j: usize = from;
    while j < to
        invariant
            from <= j <= to <= v.len(),
            forall|i: int| from <= i < j ==> is_digit(v@[i]),
        decreases to - j,
    {
        if !digit(v[j]) {
            assert(v@.subrange(from as int, to as int)[j - from] == v@[j as int]);
            return false;
        }
        j += 1;
    }
    assert forall|i: int|
        0 <= i < to - from implies is_digit(v@.subrange(from as int, to as int)[i]) by {
        assert(v@.subrange(from as int, to as int)[i] == v@[from + i]);
    }
    true
}

/// The sign-stripped body of a number candidate.
pub open spec fn number_body(s: Seq<u8>) -> Seq<u8> {
    if s.len() > 0 && (s[0] == 43 || s[0] == 45) {  // + or -
        s.drop_first()
    } else {
        s
    }
}

/// At least one digit, all bytes digits but for at most one decimal point.
pub open spec fn number_body_ok(s: Seq<u8>) -> bool {
    (s.len() >= 1 && all_digits(s)) || (s.len() >= 2 && exists|k: int|
        0 <= k < s.len() && s[k] == DOT && all_digits(s.subrange(0, k)) && all_digits(
            s.subrange(k + 1, s.len() as int),
        ))
}

/// A plain decimal number: an optional sign, then at least one digit, with at
/// most one decimal point among the digits.
pub open spec fn is_number(s: Seq<u8>) -> bool {
    number_body_ok(number_body(s))
}

/// Decides `is_number`.
pub fn number(v: &Vec<u8>) -> (r: bool)
    ensures
        r == is_number(v@),
{
    let n = v.len();
    let b: usize = if n > 0 && (v[0] == 43 || v[0] == 45) {
        1
    } else {
        0
    };
    let ghost body = number_body(v@);
    assert(body =~= v@.subrange(b as int, n as int));
    let mut k: usize = b;
    while k < n
        invariant_except_break
            n == v.len(),
            b <= k <= n,
            forall|i: int| b <= i < k ==> v@[i] != DOT,
        ensures
            n == v.len(),
            b <= k <= n,
            k < n ==> v@[k as int] == DOT,
            forall|i: int| b <= i < k ==> v@[i] != DOT,
        decreases n - k,
    {
        if v[k] == DOT {
            break ;
        }
        k += 1;
    }
    if k == n {
        // no decimal point in the body
        if n - b < 1 {
            assert(body.len() == 0);
            return false;
        }
        let d = range_digits(v, b, n);
        proof {
            if !d {
                assert(!number_body_ok(body)) by {
                    if number_body_ok(body) {
                        if !(body.len() >= 1 && all_digits(body)) {
                            let k2 = choose|k2: int|
                                0 <= k2 < body.len() && body[k2] == DOT && all_digits(
                                    body.subrange(0, k2),
                                ) && all_digits(body.subrange(k2 + 1, body.len() as int));
                            assert(body[k2] == v@[b + k2]);
                        }
                    }
                }
            }
        }
        d
    } else {
        // first decimal point of the body sits at absolute index k
        let ghost kb = k - b;
        assert(body[kb as int] == v@[k as int]);
        if n - b < 2 {
            assert(!number_body_ok(body)) by {
                assert(body.len() == 1);
                assert(!is_digit(body[0]));
            }
            return false;
        }
        let d1 = range_digits(v, b, k);
        let d2 = range_digits(v, k + 1, n);
        proof {
            assert(body.subrange(0, kb as int) =~= v@.subrange(b as int, k as int));
            assert(body.subrange(kb + 1, body.len() as int) =~= v@.subrange(
                k + 1,
                n as int,
            ));
        }
        if d1 && d2 {
            assert(number_body_ok(body)) by {
                assert(0 <= kb < body.len() && body[kb as int] == DOT && all_digits(
                    body.subrange(0, kb as int),
                ) && all_digits(body.subrange(kb + 1, body.len() as int)));
            }
            true
        } else {
            assert(!number_body_ok(body)) by {
                assert(!is_digit(body[kb as int]));
                if number_body_ok(body) {
                    let k2 = choose|k2: int|
                        0 <= k2 < body.len() && body[k2] == DOT && all_digits(
                            body.subrange(0, k2),
                        ) && all_digits(body.subrange(k2 + 1, body.len() as int));
                    if k2 == kb {
                        assert(all_digits(body.subrange(0, kb as int)));
                        assert(all_digits(body.subrange(kb + 1, body.len() as int)));
                    } else if k2 > kb {
                        assert(body.subrange(0, k2)[kb as int] == body[kb as int]);
                    } else {
                        assert(v@[b + k2] == DOT);
                    }
                }
            }
            false
        }
    }
}

/// A geographic coordinate, held as its two numeric components exactly as the
/// geolocation source spelled them.
pub struct Coordinate {
    pub lat: Vec<u8>,
    pub lon: Vec<u8>,
}

impl Coordinate {
    /// Both components are plain decimal numbers.
    pub open spec fn well_formed(&self) -> bool {
        is_number(self.lat@) && is_number(self.lon@)
    }
}

/// A well-formed `loc` field: at least two comma-separated components, every
/// component a plain decimal number.
pub open spec fn valid_loc(s: Seq<u8>) -> bool {
    split_at_sep(s, COMMA).len() >= 2 && forall|i: int|
        0 <= i < split_at_sep(s, COMMA).len() ==> is_number(#[trigger] split_at_sep(s, COMMA)[i])
}

/// Parses a `lat,lon`-shaped field into a coordinate: the first two
/// comma-separated components. Fails with `ParseError` exactly when the field
/// has fewer than two components or any component is not a plain number (no
/// default coordinate exists).
pub fn parse_coordinate(loc: &Vec<u8>) -> (r: Result<Coordinate, Error>)
    ensures
        r is Ok <==> valid_loc(loc@),
        r is Ok ==> (r->Ok_0).lat@ == split_at_sep(loc@, COMMA)[0] && (r->Ok_0).lon@
            == split_at_sep(loc@, COMMA)[1] && (r->Ok_0).well_formed(),
        r is Err ==> r->Err_0 == Error::ParseError,
{
    let mut parts = split_bytes(loc, COMMA);
    if parts.len() < 2 {
        return Err(Error::ParseError);
    }
    let mut i: usize = 0;
    while i < parts.len()
        invariant
            parts@.len() == split_at_sep(loc@, COMMA).len(),
            forall|j: int| 0 <= j < parts@.len() ==> parts@[j]@ == split_at_sep(loc@, COMMA)[j],
            i <= parts@.len(),
            forall|j: int| 0 <= j < i ==> is_number(#[trigger] split_at_sep(loc@, COMMA)[j]),
        decreases parts@.len() - i,
    {
        let ok = number(&parts[i]);
        assert(parts@[i as int]@ == split_at_sep(loc@, COMMA)[i as int]);
        if !ok {
            return Err(Error::ParseError);
        }
        i += 1;
    }
    let lat = parts.remove(0);
    let lon = parts.remove(0);
    Ok(Coordinate { lat, lon })
}

} // verus!
