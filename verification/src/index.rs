use vstd::prelude::*;
use crate::error::IndexErrorKind;
use vstd::std_specs::iter::IteratorSpec;

verus! {

broadcast use vstd::string::group_string_axioms;

/// The characters of `p`, in order.
pub(crate) fn chars_of(p: &str) -> (r: Vec<char>)
    ensures
        r@ == p@,
{
    let mut it = p.chars();
    let mut out: Vec<char> = Vec::new();
    loop
        invariant
            out@ + it.remaining() == p@,
            it.decrease() is Some,
        decreases it.decrease()->0,
    {
        match it.next() {
            Some(c) => {
                out.push(c);
                assert(out@ + it.remaining() =~= p@);
            },
            None => {
                assert(out@ =~= p@);
                return out;
            },
        }
    }
}

/// Whether `c` is a decimal digit.
pub open spec fn is_digit(c: char) -> bool {
    '0' <= c <= '9'
}

/// Reads `s` as decimal digits from left to right, failing at the first
/// character that is no digit or at the first digit that takes the number
/// past `usize::MAX`.
pub open spec fn digits_value(s: Seq<char>) -> Result<int, IndexErrorKind>
    decreases s.len(),
{
    if s.len() == 0 {
        Ok(0)
    } else {
        match digits_value(s.drop_last()) {
            Err(e) => Err(e),
            Ok(v) => if !is_digit(s.last()) {
                Err(IndexErrorKind::InvalidDigit)
            } else if v * 10 + (s.last() as int - '0' as int) > usize::MAX {
                Err(IndexErrorKind::PosOverflow)
            } else {
                Ok(v * 10 + (s.last() as int - '0' as int))
            },
        }
    }
}

/// How a path segment reads as an array index: an optional `+` and then
/// one or more decimal digits naming a number no larger than `usize::MAX`.
pub open spec fn spec_parse_index(s: Seq<char>) -> Result<usize, IndexErrorKind> {
    if s.len() == 0 {
        Err(IndexErrorKind::Empty)
    } else {
        let d = if s[0] == '+' {
            s.drop_first()
        } else {
            s
        };
        if d.len() == 0 {
            Err(IndexErrorKind::InvalidDigit)
        } else {
            match digits_value(d) {
                Ok(v) => Ok(v as usize),
                Err(e) => Err(e),
            }
        }
    }
}

pub(crate) proof fn lemma_digits_value_bound(s: Seq<char>)
    ensures
        digits_value(s) matches Ok(v) ==> 0 <= v <= usize::MAX,
    decreases s.len(),
{
    if s.len() > 0 {
        lemma_digits_value_bound(s.drop_last());
    }
}

/// Reads a path segment as an array index.
#[verifier::loop_isolation(false)]
pub fn parse_index(p: &str) -> (r: Result<usize, IndexErrorKind>)
    ensures
        r == spec_parse_index(p@),
{
    let cs = chars_of(p);
    if cs.len() == 0 {
        return Err(IndexErrorKind::Empty);
    }
    let start: usize = if cs[0] == '+' { 1 } else { 0 };
    let ghost d = if cs@[0] == '+' { cs@.drop_first() } else { cs@ };
    assert(d =~= cs@.subrange(start as int, cs@.len() as int));
    if start == cs.len() {
        return Err(IndexErrorKind::InvalidDigit);
    }
    let mut value: usize = 0;
    let mut i: usize = start;
    while i < cs.len()
        invariant
            start <= i <= cs@.len(),
            d == cs@.subrange(start as int, cs@.len() as int),
            digits_value(cs@.subrange(start as int, i as int)) == Ok::<int, IndexErrorKind>(
                value as int,
            ),
        decreases cs@.len() - i,
    {
        let c = cs[i];
        let ghost prefix = cs@.subrange(start as int, i + 1);
        assert(prefix.drop_last() =~= cs@.subrange(start as int, i as int));
        if !('0' <= c && c <= '9') {
            proof {
                assert(d.take((i + 1 - start) as int) =~= prefix);
                assert(prefix.last() == c);
                lemma_digits_err_extends(d, (i + 1 - start) as int);
            }
            return Err(IndexErrorKind::InvalidDigit);
        }
        let digit: usize = (c as u32 - '0' as u32) as usize;
        if value > (usize::MAX - digit) / 10 {
            proof {
                assert(value * 10 + digit > usize::MAX) by (nonlinear_arith)
                    requires
                        value > (usize::MAX - digit) / 10,
                        digit <= 9,
                ;
                assert(d.take((i + 1 - start) as int) =~= prefix);
                assert(prefix.last() == c);
                lemma_digits_err_extends(d, (i + 1 - start) as int);
            }
            return Err(IndexErrorKind::PosOverflow);
        }
        proof {
            assert(value * 10 + digit <= usize::MAX) by (nonlinear_arith)
                requires
                    value <= (usize::MAX - digit) / 10,
                    digit <= 9,
            ;
        }
        value = value * 10 + digit;
        i = i + 1;
    }
    assert(cs@.subrange(start as int, i as int) =~= d);
    Ok(value)
}

/// A failure while reading a prefix is the failure of the whole text.
proof fn lemma_digits_err_extends(s: Seq<char>, n: int)
    requires
        0 <= n <= s.len(),
        digits_value(s.take(n)) is Err,
    ensures
        digits_value(s) == digits_value(s.take(n)),
    decreases s.len(),
{
    if n == s.len() {
        assert(s.take(n) =~= s);
    } else {
        assert(s.drop_last().take(n) =~= s.take(n));
        lemma_digits_err_extends(s.drop_last(), n);
    }
}


} // verus!
