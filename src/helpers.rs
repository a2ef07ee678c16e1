//! The formatting helpers that the invoice template calls by name. Each one
//! takes the template's parameters and gives a text, or a `HelperError`.

use vstd::prelude::*;
use crate::decimal::{Decimal, fixed_text, mul_result, parsed_decimal};
use crate::text::{chars_of, digits, is_digit, numeral, padded, string_from_chars};

verus! {

/// A parameter as the template hands it to a helper.
#[derive(Clone, Debug)]
pub enum Param {
    Text(String),
    Integer(i128),
    /// Anything else: a fraction, a boolean, null, a list or a map.
    Other,
}

#[derive(Clone, Copy, Debug, PartialEq, Eq, Structural)]
pub enum HelperError {
    /// The parameter at this position is absent.
    Missing(usize),
    /// The parameter at this position has the wrong type.
    WrongType(usize),
    /// No `Decimal` holds the product of the two decimals.
    Overflow,
}

/// `s` with every `.` made a `,`.
pub open spec fn comma_for_point(s: Seq<char>) -> Seq<char> {
    s.map_values(|c: char| if c == '.' { ',' } else { c })
}

/// The amount with two fractional digits and a decimal comma.
pub open spec fn pln_text(d: Decimal) -> Seq<char> {
    comma_for_point(fixed_text(d.mantissa as int, d.scale as nat, 2))
}

/// `s` with every `". "` made `".\ "`.
pub open spec fn escaped(s: Seq<char>) -> Seq<char>
    decreases s.len(),
{
    if s.len() == 0 {
        seq![]
    } else if s.len() >= 2 && s[0] == '.' && s[1] == ' ' {
        seq!['.', '\\', ' '] + escaped(s.subrange(2, s.len() as int))
    } else {
        seq![s[0]] + escaped(s.subrange(1, s.len() as int))
    }
}

/// The decimal read from the parameter at `i`.
pub open spec fn decimal_param(params: Seq<Param>, i: int) -> Result<Decimal, HelperError> {
    if i >= params.len() {
        Err(HelperError::Missing(i as usize))
    } else {
        match params[i] {
            Param::Text(s) => match parsed_decimal(s@) {
                Some((m, sc)) => Ok(Decimal { mantissa: m as i128, scale: sc as u32 }),
                None => Err(HelperError::WrongType(i as usize)),
            },
            _ => Err(HelperError::WrongType(i as usize)),
        }
    }
}

/// `d` with two fractional digits, cut, and a decimal comma.
pub fn pln(d: &Decimal) -> (r: String)
    requires
        d.wf(),
    ensures
        r@ == pln_text(*d),
{
    proof {
        crate::decimal::lemma_int_digits_bound(*d);
    }
    let t = d.to_fixed(2);
    let cs = chars_of(t.as_str());
    let mut out: Vec<char> = Vec::new();
    let mut i: usize = 0;
    while i < cs.len()
        invariant
            i <= cs.len(),
            out@ =~= comma_for_point(cs@.subrange(0, i as int)),
        decreases cs.len() - i,
    {
        let c = cs[i];
        if c == '.' {
            out.push(',');
        } else {
            out.push(c);
        }
        i = i + 1;
        assert(out@ =~= comma_for_point(cs@.subrange(0, i as int)));
    }
    assert(cs@.subrange(0, i as int) =~= cs@);
    string_from_chars(&out)
}

/// Every text that `pln` gives holds exactly one comma, followed by exactly
/// two digits.
pub proof fn lemma_pln_shape(d: Decimal)
    ensures
        pln_text(d).len() >= 4,
        pln_text(d)[pln_text(d).len() - 3] == ',',
        is_digit(pln_text(d)[pln_text(d).len() - 2]),
        is_digit(pln_text(d)[pln_text(d).len() - 1]),
        forall|i: int|
            0 <= i < pln_text(d).len() - 3 ==> #[trigger] pln_text(d)[i] != ',',
{
    let m = d.mantissa as int;
    let a = crate::decimal::abs(m);
    let sign: Seq<char> = if m < 0 {
        seq!['-']
    } else {
        seq![]
    };
    let ip = digits(a / crate::text::pow10(d.scale as nat));
    let fp = padded(a * crate::text::pow10(2) / crate::text::pow10(d.scale as nat), 2);
    crate::text::lemma_digits_are_digits(a / crate::text::pow10(d.scale as nat));
    crate::text::lemma_padded_are_digits(a * crate::text::pow10(2) / crate::text::pow10(d.scale as nat), 2);
    let t = fixed_text(m, d.scale as nat, 2);
    assert(t =~= sign + ip + (seq!['.'] + fp));
    let n = t.len();
    assert(n == sign.len() + ip.len() + 3);
    assert(t[n - 3] == '.');
    assert(t[n - 2] == fp[0]);
    assert(t[n - 1] == fp[1]);
    assert forall|i: int| 0 <= i < n - 3 implies #[trigger] pln_text(d)[i] != ',' by {
        if i < sign.len() {
            assert(t[i] == '-');
        } else {
            assert(t[i] == ip[i - sign.len()]);
            assert(is_digit(ip[i - sign.len()]));
        }
    }
}

/// `s` with every period followed by a space given a backslash before the space.
pub fn escape_dot_space(s: &str) -> (r: String)
    ensures
        r@ == escaped(s@),
{
    let cs = chars_of(s);
    let n = cs.len();
    let mut out: Vec<char> = Vec::new();
    let mut i: usize = 0;
    assert(cs@.subrange(0, n as int) =~= cs@);
    assert(out@ + escaped(cs@) =~= escaped(cs@));
    while i < n
        invariant
            n == cs.len(),
            cs@ == s@,
            i <= n,
            out@ + escaped(cs@.subrange(i as int, n as int)) == escaped(cs@),
        decreases n - i,
    {
        let rest = Ghost(cs@.subrange(i as int, n as int));
        let c = cs[i];
        if c == '.' && i + 1 < n && cs[i + 1] == ' ' {
            proof {
                assert(rest@[0] == '.' && rest@[1] == ' ');
                assert(rest@.subrange(2, rest@.len() as int) =~= cs@.subrange(i + 2, n as int));
                assert(out@.push('.').push('\\').push(' ') =~= out@ + seq!['.', '\\', ' ']);
            }
            out.push('.');
            out.push('\\');
            out.push(' ');
            i = i + 2;
        } else {
            proof {
                assert(rest@[0] == c);
                assert(rest@.subrange(1, rest@.len() as int) =~= cs@.subrange(i + 1, n as int));
                assert(out@.push(c) =~= out@ + seq![c]);
            }
            out.push(c);
            i = i + 1;
        }
    }
    assert(cs@.subrange(n as int, n as int) =~= Seq::<char>::empty());
    assert(out@ + seq![] =~= out@);
    string_from_chars(&out)
}

/// `n + 1` as a numeral; `None` for a negative `n`.
pub fn inc(n: i128) -> (r: Option<String>)
    ensures
        r is Some <==> n >= 0,
        r matches Some(t) ==> t@ == digits((n + 1) as nat),
{
    if n < 0 {
        None
    } else {
        Some(numeral((n as u128) + 1))
    }
}

/// The text of `mul_result(a, b)` with all its fractional digits.
pub open spec fn product_text_of(a: Decimal, b: Decimal) -> Option<Seq<char>> {
    match mul_result(a, b) {
        Some(p) => Some(fixed_text(p.mantissa as int, p.scale as nat, p.scale as nat)),
        None => None,
    }
}

/// The exact product as `Display` writes it; `None` where no `Decimal`
/// holds it.
pub fn product_text(a: &Decimal, b: &Decimal) -> (r: Option<String>)
    requires
        a.wf(),
        b.wf(),
    ensures
        r is Some <==> product_text_of(*a, *b) is Some,
        r matches Some(t) ==> product_text_of(*a, *b) == Some(t@),
{
    match a.checked_mul(b) {
        Some(p) => Some(p.to_string()),
        None => None,
    }
}

/// The text of a product does not depend on the order of the factors.
pub proof fn lemma_product_text_commutes(a: Decimal, b: Decimal)
    ensures
        product_text_of(a, b) == product_text_of(b, a),
{
    crate::decimal::lemma_mul_result_commutes(a, b);
}

fn decimal_arg(params: &Vec<Param>, i: usize) -> (r: Result<Decimal, HelperError>)
    ensures
        r == decimal_param(params@, i as int),
        r matches Ok(d) ==> d.wf(),
{
    if i >= params.len() {
        return Err(HelperError::Missing(i));
    }
    match &params[i] {
        Param::Text(s) => match Decimal::parse(s.as_str()) {
            Some(d) => Ok(d),
            None => Err(HelperError::WrongType(i)),
        },
        _ => Err(HelperError::WrongType(i)),
    }
}

/// `pln` on the first parameter, a decimal written as text.
pub fn pln_helper(params: &Vec<Param>) -> (r: Result<String, HelperError>)
    ensures
        match decimal_param(params@, 0) {
            Ok(d) => r matches Ok(t) && t@ == pln_text(d),
            Err(e) => r == Err::<String, HelperError>(e),
        },
{
    let d = decimal_arg(params, 0)?;
    Ok(pln(&d))
}

/// The exact product of the first two parameters, decimals written as text.
pub fn mul_helper(params: &Vec<Param>) -> (r: Result<String, HelperError>)
    ensures
        match (decimal_param(params@, 0), decimal_param(params@, 1)) {
            (Err(e), _) => r == Err::<String, HelperError>(e),
            (Ok(_), Err(e)) => r == Err::<String, HelperError>(e),
            (Ok(a), Ok(b)) => match product_text_of(a, b) {
                Some(t) => r matches Ok(w) && w@ == t,
                None => r == Err::<String, HelperError>(HelperError::Overflow),
            },
        },
{
    let a = decimal_arg(params, 0)?;
    let b = decimal_arg(params, 1)?;
    match product_text(&a, &b) {
        Some(t) => Ok(t),
        None => Err(HelperError::Overflow),
    }
}

/// The first parameter, a non-negative integer, plus one.
pub fn inc_helper(params: &Vec<Param>) -> (r: Result<String, HelperError>)
    ensures
        params.len() == 0 ==> r == Err::<String, HelperError>(HelperError::Missing(0)),
        params.len() > 0 ==> match params[0] {
            Param::Integer(n) => if n >= 0 {
                r matches Ok(t) && t@ == digits((n + 1) as nat)
            } else {
                r == Err::<String, HelperError>(HelperError::WrongType(0))
            },
            _ => r == Err::<String, HelperError>(HelperError::WrongType(0)),
        },
{
    if params.len() == 0 {
        return Err(HelperError::Missing(0));
    }
    match &params[0] {
        Param::Integer(n) => match inc(*n) {
            Some(t) => Ok(t),
            None => Err(HelperError::WrongType(0)),
        },
        _ => Err(HelperError::WrongType(0)),
    }
}

/// `escape_dot_space` on the first parameter, a text.
pub fn escape_dot_space_helper(params: &Vec<Param>) -> (r: Result<String, HelperError>)
    ensures
        params.len() == 0 ==> r == Err::<String, HelperError>(HelperError::Missing(0)),
        params.len() > 0 ==> match params[0] {
            Param::Text(s) => r matches Ok(t) && t@ == escaped(s@),
            _ => r == Err::<String, HelperError>(HelperError::WrongType(0)),
        },
{
    if params.len() == 0 {
        return Err(HelperError::Missing(0));
    }
    match &params[0] {
        Param::Text(s) => Ok(escape_dot_space(s.as_str())),
        _ => Err(HelperError::WrongType(0)),
    }
}

} // verus!
