//! Scaling of one variable inside an equation: every standalone occurrence
//! `v` or `v^e` of the variable becomes `p*v` or `p^e*v^e`, optionally
//! negated.
//!
//! An occurrence is what the pattern "the variable's name, then optionally
//! `^` and one or more ASCII digits" matches when the equation is scanned
//! from left to right for leftmost, greedy, non-overlapping matches; an
//! empty match right where the previous match ended is passed over.

use vstd::prelude::*;
use vstd::arithmetic::power::pow;
use crate::text::{
    append_all, append_range, chars_of, decimal, decimal_chars, digits_value, is_digit,
    is_var_char, spec_is_var_char, string_of,
};

verus! {

/// The variable's name stands at position `q` of `s`.
pub open spec fn literal_at(s: Seq<char>, v: Seq<char>, q: int) -> bool {
    0 <= q && q + v.len() <= s.len() && s.subrange(q, q + v.len()) == v
}

/// The number of consecutive ASCII digits in `s` from position `p` on.
pub open spec fn digit_run(s: Seq<char>, p: int) -> int
    decreases s.len() - p,
{
    if 0 <= p < s.len() && is_digit(s[p]) {
        1 + digit_run(s, p + 1)
    } else {
        0
    }
}

/// The occurrence that starts at `q` (where the name stands): its start,
/// its end, and whether it carries an exponent (then the exponent's digits
/// run from just after the `^` to the end).
pub open spec fn occurrence_at(s: Seq<char>, v: Seq<char>, q: int) -> (int, int, bool) {
    let e = q + v.len();
    if 0 <= e < s.len() && s[e] == '^' && digit_run(s, e + 1) > 0 {
        (q, e + 1 + digit_run(s, e + 1), true)
    } else {
        (q, e, false)
    }
}

/// The first position at or after `pos` where the name stands.
pub open spec fn first_literal_from(s: Seq<char>, v: Seq<char>, pos: int) -> Option<int>
    decreases s.len() - pos,
{
    if pos < 0 || pos + v.len() > s.len() {
        None
    } else if literal_at(s, v, pos) {
        Some(pos)
    } else if pos >= s.len() {
        None
    } else {
        first_literal_from(s, v, pos + 1)
    }
}

pub proof fn lemma_digit_run_nonneg(s: Seq<char>, p: int)
    ensures
        0 <= digit_run(s, p),
        p >= 0 ==> p + digit_run(s, p) <= s.len() || digit_run(s, p) == 0,
    decreases s.len() - p,
{
    if 0 <= p < s.len() && is_digit(s[p]) {
        lemma_digit_run_nonneg(s, p + 1);
    }
}

pub proof fn lemma_first_literal_from(s: Seq<char>, v: Seq<char>, pos: int)
    ensures
        first_literal_from(s, v, pos) matches Some(q) ==> pos <= q && q + v.len() <= s.len()
            && literal_at(s, v, q),
    decreases s.len() - pos,
{
    if pos < 0 || pos + v.len() > s.len() {
    } else if literal_at(s, v, pos) {
    } else if pos >= s.len() {
    } else {
        lemma_first_literal_from(s, v, pos + 1);
    }
}

/// The occurrences found by a scan that resumes at `pos`, where `last` is
/// the end of the previous occurrence, if any.
#[verifier::opaque]
pub open spec fn occurrences_from(s: Seq<char>, v: Seq<char>, pos: int, last: Option<int>) -> Seq<(int, int, bool)>
    decreases s.len() + 1 - pos, (if last == Some(pos) { 0int } else { 1int }),
{
    if pos < 0 || pos > s.len() {
        seq![]
    } else {
        match first_literal_from(s, v, pos) {
            None => seq![],
            Some(q) => {
                proof {
                    lemma_first_literal_from(s, v, pos);
                    lemma_digit_run_nonneg(s, q + v.len() + 1);
                }
                let o = occurrence_at(s, v, q);
                if o.1 == q && last == Some(q) {
                    occurrences_from(s, v, q + 1, last)
                } else {
                    seq![o] + occurrences_from(s, v, o.1, Some(o.1))
                }
            },
        }
    }
}

/// All occurrences of the name `v` in `s`, in order.
pub open spec fn occurrences(s: Seq<char>, v: Seq<char>) -> Seq<(int, int, bool)> {
    occurrences_from(s, v, 0, None)
}

/// An occurrence stands alone: no variable char touches it on either side.
pub open spec fn standalone(s: Seq<char>, o: (int, int, bool)) -> bool {
    &&& (o.0 == 0 || !spec_is_var_char(s[o.0 - 1]))
    &&& (o.1 == s.len() || !spec_is_var_char(s[o.1]))
}

/// The exponent written in occurrence `o`.
pub open spec fn exponent_of(s: Seq<char>, v: Seq<char>, o: (int, int, bool)) -> nat {
    digits_value(s.subrange(o.0 + v.len() + 1, o.1))
}

/// What a standalone occurrence is replaced by; `None` where its exponent
/// does not fit in a `u32`.
pub open spec fn replacement(s: Seq<char>, v: Seq<char>, o: (int, int, bool), prime: u64, negative: bool) -> Option<Seq<char>> {
    if o.2 {
        let e = exponent_of(s, v, o);
        if e > u32::MAX {
            None
        } else {
            let body = decimal(pow(prime as int, e) as nat) + seq!['*'] + v + seq!['^'] + decimal(e);
            Some(if negative && e % 2 == 1 { seq!['-'] + body } else { body })
        }
    } else {
        let body = decimal(prime as nat) + seq!['*'] + v;
        Some(if negative { seq!['-'] + body } else { body })
    }
}

/// The text from `last` on, with the standalone occurrences among `os`
/// replaced.
#[verifier::opaque]
pub open spec fn assemble(s: Seq<char>, v: Seq<char>, os: Seq<(int, int, bool)>, last: int, prime: u64, negative: bool) -> Option<Seq<char>>
    decreases os.len(),
{
    if os.len() == 0 {
        Some(s.subrange(last, s.len() as int))
    } else {
        let o = os[0];
        if standalone(s, o) {
            match replacement(s, v, o, prime, negative) {
                None => None,
                Some(r) => match assemble(s, v, os.drop_first(), o.1, prime, negative) {
                    None => None,
                    Some(rest) => Some(s.subrange(last, o.0) + r + rest),
                },
            }
        } else {
            assemble(s, v, os.drop_first(), last, prime, negative)
        }
    }
}

/// The equation `s` with every standalone occurrence of `v` scaled by
/// `prime` (by `prime^e` where it carries the exponent `e`), negated where
/// `negative` asks for it; `None` where an exponent does not fit in a `u32`.
pub open spec fn spec_mutate_variable(s: Seq<char>, v: Seq<char>, prime: u64, negative: bool) -> Option<Seq<char>> {
    assemble(s, v, occurrences(s, v), 0, prime, negative)
}

} // verus!

verus! {

/// Writes `base^exp` in decimal.
///
/// Trusted: converts `base` with `num_bigint::BigUint::from`, raises it with
/// `BigUint::pow` and writes the result with `BigUint`'s `Display` impl
/// (which is `to_str_radix(10)`). The contract claims that the text is the
/// decimal representation, without leading zeros, of the exact power (with
/// `x^0 == 1`, `0^0` included). `pow` allocates as much as the result
/// needs; running out of memory on an astronomically large result is not
/// modelled.
#[verifier::external_body]
fn power_decimal(base: u64, exp: u32) -> (s: String)
    ensures
        s@ == decimal(pow(base as int, exp as nat) as nat),
{
    num_bigint::BigUint::from(base).pow(exp).to_string()
}

/// Whether the name `v` stands at position `q` of `s`.
fn name_at(s: &Vec<char>, v: &Vec<char>, q: usize) -> (r: bool)
    requires
        q <= s.len(),
    ensures
        r == literal_at(s@, v@, q as int),
{
    if v.len() > s.len() - q {
        return false;
    }
    let mut i: usize = 0;
    while i < v.len()
        invariant
            q + v.len() <= s.len(),
            i <= v.len(),
            forall|j: int| 0 <= j < i ==> s@[q + j] == v@[j],
        decreases v.len() - i,
    {
        if s[q + i] != v[i] {
            assert(s@.subrange(q as int, q + v.len())[i as int] != v@[i as int]);
            return false;
        }
        i = i + 1;
    }
    assert(s@.subrange(q as int, q + v.len()) =~= v@);
    true
}

/// The first position at or after `pos` where the name `v` stands.
fn find_name_from(s: &Vec<char>, v: &Vec<char>, pos: usize) -> (r: Option<usize>)
    requires
        pos <= s.len() + 1,
    ensures
        match r {
            None => first_literal_from(s@, v@, pos as int) is None,
            Some(q) => first_literal_from(s@, v@, pos as int) == Some(q as int),
        },
{
    let mut q: usize = pos;
    while q <= s.len() && v.len() <= s.len() - q
        invariant
            pos <= q <= s.len() + 1,
            first_literal_from(s@, v@, pos as int) == first_literal_from(s@, v@, q as int),
        decreases s.len() + 1 - q,
    {
        if name_at(s, v, q) {
            return Some(q);
        }
        if q >= s.len() {
            return None;
        }
        q = q + 1;
    }
    None
}

/// The number of consecutive ASCII digits from position `p` on.
fn count_digits(s: &Vec<char>, p: usize) -> (r: usize)
    requires
        p <= s.len(),
    ensures
        r == digit_run(s@, p as int),
        p + r <= s.len(),
{
    let mut end: usize = p;
    while end < s.len() && '0' <= s[end] && s[end] <= '9'
        invariant
            p <= end <= s.len(),
            forall|j: int| p <= j < end ==> is_digit(s@[j]),
        decreases s.len() - end,
    {
        end = end + 1;
    }
    proof {
        lemma_digit_run_upto(s@, p as int, end as int);
    }
    end - p
}

proof fn lemma_digit_run_prefix(s: Seq<char>, p: int, k: int)
    requires
        0 <= p <= k < p + digit_run(s, p),
    ensures
        is_digit(s[k]),
    decreases k - p,
{
    if k > p {
        lemma_digit_run_prefix(s, p + 1, k);
    }
}

proof fn lemma_digit_run_upto(s: Seq<char>, p: int, end: int)
    requires
        0 <= p <= end <= s.len(),
        forall|j: int| p <= j < end ==> is_digit(s[j]),
        end == s.len() || !is_digit(s[end]),
    ensures
        digit_run(s, p) == end - p,
    decreases end - p,
{
    if p < end {
        lemma_digit_run_upto(s, p + 1, end);
    }
}

proof fn lemma_digits_value_prefix(ds: Seq<char>, i: int, j: int)
    requires
        0 <= i <= j <= ds.len(),
        forall|k: int| 0 <= k < ds.len() ==> is_digit(ds[k]),
    ensures
        digits_value(ds.take(i)) <= digits_value(ds.take(j)),
    decreases j - i,
{
    if i < j {
        lemma_digits_value_prefix(ds, i, j - 1);
        assert(ds.take(j).drop_last() == ds.take(j - 1));
    }
}

/// The value of the digits `s[from..to]`, if it fits in a `u32`.
fn parse_exponent(s: &Vec<char>, from: usize, to: usize) -> (r: Option<u32>)
    requires
        from <= to <= s.len(),
        forall|k: int| from <= k < to ==> is_digit(s@[k]),
    ensures
        match r {
            None => digits_value(s@.subrange(from as int, to as int)) > u32::MAX,
            Some(e) => e as nat == digits_value(s@.subrange(from as int, to as int)),
        },
{
    let ghost ds = s@.subrange(from as int, to as int);
    let mut acc: u64 = 0;
    let mut i: usize = from;
    while i < to
        invariant
            from <= i <= to <= s.len(),
            ds == s@.subrange(from as int, to as int),
            forall|k: int| from <= k < to ==> is_digit(s@[k]),
            acc <= u32::MAX,
            acc as nat == digits_value(ds.take(i - from)),
        decreases to - i,
    {
        let c = s[i];
        let d: u64 = ((c as u32) - ('0' as u32)) as u64;
        assert(ds.take(i + 1 - from).drop_last() == ds.take(i - from));
        assert(ds.take(i + 1 - from).last() == c);
        acc = acc * 10 + d;
        i = i + 1;
        if acc > 0xffff_ffffu64 {
            proof {
                lemma_digits_value_prefix(ds, i - from, ds.len() as int);
                assert(ds.take(ds.len() as int) == ds);
            }
            return None;
        }
    }
    assert(ds.take(to - from) == ds);
    Some(acc as u32)
}

/// What the occurrence `(start, end, has_exp)` is replaced by.
fn replacement_chars(
    s: &Vec<char>,
    v: &Vec<char>,
    start: usize,
    end: usize,
    has_exp: bool,
    prime: u64,
    negative: bool,
) -> (r: Option<Vec<char>>)
    requires
        start + v.len() <= end <= s.len(),
        has_exp ==> start + v.len() + 1 <= end,
        has_exp ==> forall|k: int| start + v.len() + 1 <= k < end ==> is_digit(s@[k]),
    ensures
        match r {
            None => replacement(s@, v@, (start as int, end as int, has_exp), prime, negative) is None,
            Some(t) => replacement(s@, v@, (start as int, end as int, has_exp), prime, negative)
                == Some(t@),
        },
{
    let mut out: Vec<char> = Vec::new();
    if has_exp {
        match parse_exponent(s, start + v.len() + 1, end) {
            None => None,
            Some(e) => {
                if negative && e % 2 == 1 {
                    out.push('-');
                }
                let scale = power_decimal(prime, e);
                let scale_chars = chars_of(scale.as_str());
                append_all(&mut out, &scale_chars);
                out.push('*');
                append_all(&mut out, v);
                out.push('^');
                let exp_chars = decimal_chars(e as u64);
                append_all(&mut out, &exp_chars);
                proof {
                    let body = decimal(pow(prime as int, e as nat) as nat) + seq!['*'] + v@ + seq!['^']
                        + decimal(e as nat);
                    if negative && e % 2 == 1 {
                        assert(out@ =~= seq!['-'] + body);
                    } else {
                        assert(out@ =~= body);
                    }
                }
                Some(out)
            },
        }
    } else {
        if negative {
            out.push('-');
        }
        let p = decimal_chars(prime);
        append_all(&mut out, &p);
        out.push('*');
        append_all(&mut out, v);
        proof {
            let body = decimal(prime as nat) + seq!['*'] + v@;
            if negative {
                assert(out@ =~= seq!['-'] + body);
            } else {
                assert(out@ =~= body);
            }
        }
        Some(out)
    }
}


proof fn lemma_scan_skip(s: Seq<char>, v: Seq<char>, pos: int, last: Option<int>, q: int)
    requires
        0 <= pos <= s.len(),
        first_literal_from(s, v, pos) == Some(q),
        occurrence_at(s, v, q).1 == q,
        last == Some(q),
    ensures
        occurrences_from(s, v, pos, last) == occurrences_from(s, v, q + 1, last),
{
    reveal(occurrences_from);
}

proof fn lemma_scan_emit(s: Seq<char>, v: Seq<char>, pos: int, last: Option<int>, q: int)
    requires
        0 <= pos <= s.len(),
        first_literal_from(s, v, pos) == Some(q),
        !(occurrence_at(s, v, q).1 == q && last == Some(q)),
    ensures
        occurrences_from(s, v, pos, last) == seq![occurrence_at(s, v, q)] + occurrences_from(
            s,
            v,
            occurrence_at(s, v, q).1,
            Some(occurrence_at(s, v, q).1),
        ),
{
    reveal(occurrences_from);
}

proof fn lemma_assemble_step(
    s: Seq<char>,
    v: Seq<char>,
    o: (int, int, bool),
    rest: Seq<(int, int, bool)>,
    last: int,
    prime: u64,
    negative: bool,
)
    ensures
        assemble(s, v, seq![o] + rest, last, prime, negative) == if standalone(s, o) {
            match replacement(s, v, o, prime, negative) {
                None => None,
                Some(r) => prefixed(s.subrange(last, o.0) + r, assemble(s, v, rest, o.1, prime, negative)),
            }
        } else {
            assemble(s, v, rest, last, prime, negative)
        },
{
    reveal(assemble);
    let os = seq![o] + rest;
    assert(os[0] == o);
    assert(os.drop_first() == rest);
}

proof fn lemma_scan_done(s: Seq<char>, v: Seq<char>, pos: int, last: Option<int>)
    requires
        pos > s.len() || first_literal_from(s, v, pos) is None,
    ensures
        occurrences_from(s, v, pos, last).len() == 0,
{
    reveal(occurrences_from);
}

proof fn lemma_assemble_done(s: Seq<char>, v: Seq<char>, os: Seq<(int, int, bool)>, last: int, prime: u64, negative: bool)
    requires
        os.len() == 0,
    ensures
        assemble(s, v, os, last, prime, negative) == Some(s.subrange(last, s.len() as int)),
{
    reveal(assemble);
}

/// The end of the occurrence whose name stands at `q`, and whether it
/// carries an exponent.
fn occurrence_end(s: &Vec<char>, v: &Vec<char>, q: usize) -> (r: (usize, bool))
    requires
        q + v.len() <= s.len(),
    ensures
        occurrence_at(s@, v@, q as int) == (q as int, r.0 as int, r.1),
        q + v.len() <= r.0 <= s.len(),
        r.1 ==> q + v.len() + 1 <= r.0,
        r.1 ==> forall|k: int| q + v.len() + 1 <= k < r.0 ==> is_digit(s@[k]),
{
    let after = q + v.len();
    if after < s.len() && s[after] == '^' {
        let d = count_digits(s, after + 1);
        if d > 0 {
            assert forall|k: int| after + 1 <= k < after + 1 + d implies is_digit(s@[k]) by {
                lemma_digit_run_prefix(s@, after + 1, k);
            }
            return (after + 1 + d, true);
        }
    }
    (after, false)
}

/// Whether no variable char touches `s[start..end]` on either side.
fn is_standalone(s: &Vec<char>, start: usize, end: usize) -> (r: bool)
    requires
        start <= end <= s.len(),
    ensures
        r == standalone(s@, (start as int, end as int, false)),
{
    let before_ok = start == 0 || !is_var_char(s[start - 1]);
    let after_ok = end == s.len() || !is_var_char(s[end]);
    before_ok && after_ok
}

/// An optional position, as a mathematical integer.
pub open spec fn opt_int(o: Option<usize>) -> Option<int> {
    match o {
        None => None,
        Some(x) => Some(x as int),
    }
}

/// `front` followed by the text in `rest`, if there is one.
pub open spec fn prefixed(front: Seq<char>, rest: Option<Seq<char>>) -> Option<Seq<char>> {
    match rest {
        None => None,
        Some(x) => Some(front + x),
    }
}

/// Replaces occurrences of `variable` in `equation` with a scaled version;
/// `None` where an exponent that would be rewritten does not fit in a `u32`.
///
/// If the variable has an exponent, the scale is `prime^exponent`.
/// When `negative` is true, odd powers receive a negative sign.
pub fn checked_mutate_variable_in_equation(
    equation: &str,
    variable: &str,
    prime: u64,
    negative: bool,
) -> (r: Option<String>)
    ensures
        match r {
            None => spec_mutate_variable(equation@, variable@, prime, negative) is None,
            Some(t) => spec_mutate_variable(equation@, variable@, prime, negative) == Some(t@),
        },
{
    let s = chars_of(equation);
    let v = chars_of(variable);
    let mut out: Vec<char> = Vec::new();
    let mut pos: usize = 0;
    let mut last_end: Option<usize> = None;
    let mut last: usize = 0;
    loop
        invariant
            s@ == equation@,
            v@ == variable@,
            last <= pos <= s.len() + 1,
            last <= s.len(),
            spec_mutate_variable(s@, v@, prime, negative) == prefixed(
                out@,
                assemble(s@, v@, occurrences_from(s@, v@, pos as int, opt_int(last_end)), last as int, prime, negative),
            ),
        ensures
            occurrences_from(s@, v@, pos as int, opt_int(last_end)).len() == 0,
        decreases 2 * (s.len() + 1 - pos) + (if opt_int(last_end) == Some(pos as int) { 0int } else { 1int }),
    {
        match find_name_from(&s, &v, pos) {
            None => {
                proof {
                    lemma_scan_done(s@, v@, pos as int, opt_int(last_end));
                }
                break;
            },
            Some(q) => {
                proof {
                    lemma_first_literal_from(s@, v@, pos as int);
                }
                let (end, has_exp) = occurrence_end(&s, &v, q);
                let repeats = match last_end {
                    Some(le) => le == q,
                    None => false,
                };
                let ghost o = (q as int, end as int, has_exp);
                let ghost rest_os = occurrences_from(s@, v@, end as int, Some(end as int));
                if end == q && repeats {
                    proof {
                        lemma_scan_skip(s@, v@, pos as int, opt_int(last_end), q as int);
                    }
                    if q == s.len() {
                        proof {
                            lemma_scan_done(s@, v@, q + 1, opt_int(last_end));
                        }
                        break;
                    }
                    pos = q + 1;
                } else {
                    proof {
                        lemma_scan_emit(s@, v@, pos as int, opt_int(last_end), q as int);
                        lemma_assemble_step(s@, v@, o, rest_os, last as int, prime, negative);
                    }
                    if is_standalone(&s, q, end) {
                        match replacement_chars(&s, &v, q, end, has_exp, prime, negative) {
                            None => {
                                return None;
                            },
                            Some(r) => {
                                let ghost old_out = out@;
                                append_range(&mut out, &s, last, q);
                                append_all(&mut out, &r);
                                proof {
                                    let rest = assemble(s@, v@, occurrences_from(s@, v@, end as int, Some(end as int)), end as int, prime, negative);
                                    if let Some(x) = rest {
                                        assert(old_out + (s@.subrange(last as int, q as int) + r@ + x) == out@ + x);
                                    }
                                }
                                last = end;
                            },
                        }
                    }
                    pos = end;
                    last_end = Some(end);
                }
            },
        }
    }
    proof {
        lemma_assemble_done(s@, v@, occurrences_from(s@, v@, pos as int, opt_int(last_end)), last as int, prime, negative);
    }
    append_range(&mut out, &s, last, s.len());
    Some(string_of(out.as_slice()))
}

/// Replaces occurrences of `variable` in `equation` with a scaled version.
///
/// If the variable has an exponent, the scale is `prime^exponent`.
/// When `negative` is true, odd powers receive a negative sign.
pub fn mutate_variable_in_equation(equation: &str, variable: &str, prime: u64, negative: bool) -> (r: String)
    requires
        spec_mutate_variable(equation@, variable@, prime, negative) is Some,
    ensures
        spec_mutate_variable(equation@, variable@, prime, negative) == Some(r@),
{
    checked_mutate_variable_in_equation(equation, variable, prime, negative).unwrap()
}


/// An equation in which the variable's name does not occur comes back
/// unchanged.
pub proof fn lemma_absent_variable_unchanged(s: Seq<char>, v: Seq<char>, prime: u64, negative: bool)
    requires
        first_literal_from(s, v, 0) is None,
    ensures
        spec_mutate_variable(s, v, prime, negative) == Some(s),
{
    lemma_scan_done(s, v, 0, None);
    lemma_assemble_done(s, v, occurrences(s, v), 0, prime, negative);
    assert(s.subrange(0, s.len() as int) =~= s);
}

/// Occurrences that touch another variable char on either side are left
/// alone: where no occurrence stands alone, the equation comes back
/// unchanged.
pub proof fn lemma_no_standalone_unchanged(s: Seq<char>, v: Seq<char>, prime: u64, negative: bool)
    requires
        forall|k: int| 0 <= k < occurrences(s, v).len() ==> !standalone(s, #[trigger] occurrences(s, v)[k]),
    ensures
        spec_mutate_variable(s, v, prime, negative) == Some(s),
{
    lemma_assemble_skips(s, v, occurrences(s, v), 0, prime, negative);
    assert(s.subrange(0, s.len() as int) =~= s);
}

proof fn lemma_assemble_skips(s: Seq<char>, v: Seq<char>, os: Seq<(int, int, bool)>, last: int, prime: u64, negative: bool)
    requires
        forall|k: int| 0 <= k < os.len() ==> !standalone(s, #[trigger] os[k]),
    ensures
        assemble(s, v, os, last, prime, negative) == Some(s.subrange(last, s.len() as int)),
    decreases os.len(),
{
    reveal(assemble);
    if os.len() > 0 {
        assert(!standalone(s, os[0]));
        assert forall|k: int| 0 <= k < os.drop_first().len() implies !standalone(s, #[trigger] os.drop_first()[k]) by {
            assert(os.drop_first()[k] == os[k + 1]);
        }
        lemma_assemble_skips(s, v, os.drop_first(), last, prime, negative);
    }
}

} // verus!
