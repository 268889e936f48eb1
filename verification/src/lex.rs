use vstd::prelude::*;

use crate::scan::{
    index_tokens, is_digit_char, is_number_char, is_operator_char, spec_scan, spec_scan_from,
};
use crate::token::{CalcError, Number, Operator, Token, TokenIndexes};

verus! {

/// Whether a scanned range fits `s` and covers characters of its kind:
/// a number range is non-empty, within bounds and all digits or dots; an
/// operator range is one operator character wide.
pub open spec fn range_wf(r: TokenIndexes, s: Seq<char>) -> bool {
    match r {
        TokenIndexes::Number(a, b) => (a as int) < (b as int) && b as int <= s.len() && (forall|
            k: int,
        |
            a as int <= k < b as int ==> is_number_char(s[k])),
        TokenIndexes::Operator(a, b) => b as int == a as int + 1 && (a as int) < s.len()
            && is_operator_char(s[a as int]),
    }
}

/// Whether every range of a successful scan result is well formed.
pub open spec fn result_ranges_wf(s: Seq<char>, r: Result<Seq<TokenIndexes>, CalcError>) -> bool {
    match r {
        Ok(rs) => forall|j: int| 0 <= j < rs.len() ==> range_wf(#[trigger] rs[j], s),
        Err(_) => true,
    }
}

/// Every range the scanner yields is well formed.
pub proof fn lemma_scan_ranges_wf(s: Seq<char>, rs: Seq<TokenIndexes>)
    requires
        s.len() <= usize::MAX as int,
        spec_scan(s) == Ok::<Seq<TokenIndexes>, CalcError>(rs),
    ensures
        forall|j: int| 0 <= j < rs.len() ==> range_wf(#[trigger] rs[j], s),
{
    lemma_scan_from_ranges_wf(s, 0, Seq::empty(), false);
    assert(result_ranges_wf(s, Ok::<Seq<TokenIndexes>, CalcError>(rs)));
    assert forall|j: int| 0 <= j < rs.len() implies range_wf(#[trigger] rs[j], s) by {
        let r: Result<Seq<TokenIndexes>, CalcError> = Ok(rs);
        assert(result_ranges_wf(s, r));
        assert(r matches Ok(rs2) ==> forall|m: int| 0 <= m < rs2.len() ==> range_wf(#[trigger] rs2[m], s));
    }
}

/// Helper for `lemma_scan_ranges_wf`, generalised over the scanner state.
proof fn lemma_scan_from_ranges_wf(s: Seq<char>, i: int, acc: Seq<TokenIndexes>, inn: bool)
    requires
        s.len() <= usize::MAX as int,
        0 <= i <= s.len(),
        forall|j: int| 0 <= j < acc.len() ==> range_wf(#[trigger] acc[j], s) && acc[j].end() as int
            <= i,
        inn ==> acc.len() > 0 && acc.last() is Number && acc.last().end() as int == i,
    ensures
        result_ranges_wf(s, spec_scan_from(s, i, acc, inn)),
    decreases s.len() - i,
{
    if i < s.len() {
        let c = s[i];
        if is_number_char(c) {
            let acc2 = if inn && acc.len() > 0 {
                acc.drop_last().push(TokenIndexes::Number(acc.last().start(), (i + 1) as usize))
            } else {
                acc.push(TokenIndexes::Number(i as usize, (i + 1) as usize))
            };
            assert(forall|j: int|
                0 <= j < acc2.len() ==> range_wf(#[trigger] acc2[j], s) && acc2[j].end() as int <= i
                    + 1);
            lemma_scan_from_ranges_wf(s, i + 1, acc2, true);
        } else if is_operator_char(c) {
            lemma_scan_from_ranges_wf(
                s,
                i + 1,
                acc.push(TokenIndexes::Operator(i as usize, (i + 1) as usize)),
                false,
            );
        } else if c == ' ' {
            lemma_scan_from_ranges_wf(s, i + 1, acc, false);
        }
    }
}

/// Whether a scanned number range can be parsed: non-empty, only digits
/// and dots, at most one dot, and at least one digit.
pub open spec fn parseable(t: Seq<char>) -> bool {
    &&& t.len() >= 1
    &&& (forall|k: int| 0 <= k < t.len() ==> is_number_char(t[k]))
    &&& (forall|k: int, l: int|
        0 <= k < t.len() && 0 <= l < t.len() && t[k] == '.' && t[l] == '.' ==> k == l)
    &&& exists|k: int| 0 <= k < t.len() && is_digit_char(t[k])
}

/// Whether every number range that scanning `s` yields is parseable.
/// Inputs that break this, such as a range with two dots, have no defined
/// numeric reading; the lexer's callers rule them out first.
pub open spec fn spec_numbers_parseable(s: Seq<char>) -> bool {
    match spec_scan(s) {
        Ok(rs) => forall|j: int|
            0 <= j < rs.len() && rs[j] is Number ==> parseable(
                s.subrange(#[trigger] rs[j].start() as int, rs[j].end() as int),
            ),
        Err(_) => true,
    }
}

/// The index of the first `.` in `t` at or after `i`, or `t.len()` if none.
pub open spec fn first_dot_from(t: Seq<char>, i: int) -> int
    decreases t.len() - i,
{
    if i < 0 || i >= t.len() {
        t.len() as int
    } else if t[i] == '.' {
        i
    } else {
        first_dot_from(t, i + 1)
    }
}

/// The index of the first `.` in `t`, or `t.len()` if there is none.
pub open spec fn first_dot(t: Seq<char>) -> int {
    first_dot_from(t, 0)
}

/// What `first_dot_from` finds: the least dot position at or after `i`.
proof fn lemma_first_dot_from(t: Seq<char>, i: int)
    requires
        0 <= i <= t.len(),
    ensures
        i <= first_dot_from(t, i) <= t.len(),
        first_dot_from(t, i) < t.len() ==> t[first_dot_from(t, i)] == '.',
        forall|k: int| i <= k < first_dot_from(t, i) ==> t[k] != '.',
        forall|k: int| i <= k < t.len() && t[k] == '.' ==> first_dot_from(t, i) <= k,
    decreases t.len() - i,
{
    if i < t.len() && t[i] != '.' {
        lemma_first_dot_from(t, i + 1);
    }
}

/// What `first_dot` finds: the least dot position, or the length.
pub proof fn lemma_first_dot(t: Seq<char>)
    ensures
        0 <= first_dot(t) <= t.len(),
        first_dot(t) < t.len() ==> t[first_dot(t)] == '.',
        forall|k: int| 0 <= k < first_dot(t) ==> t[k] != '.',
        forall|k: int| 0 <= k < t.len() && t[k] == '.' ==> first_dot(t) <= k,
{
    lemma_first_dot_from(t, 0);
}

/// The numeric value of a digit character.
pub open spec fn digit_val(c: char) -> int {
    c as u32 - 48
}

/// The value of a digit string read in base ten.
pub open spec fn digits_val(t: Seq<char>) -> int
    decreases t.len(),
{
    if t.len() == 0 {
        0
    } else {
        10 * digits_val(t.drop_last()) + digit_val(t.last())
    }
}

/// Whether every character of `t` is a digit.
pub open spec fn all_digits(t: Seq<char>) -> bool {
    forall|k: int| 0 <= k < t.len() ==> is_digit_char(t[k])
}

/// A digit string's value is non-negative and no prefix exceeds it.
proof fn lemma_digits_val_prefix(t: Seq<char>, k: int)
    requires
        all_digits(t),
        0 <= k <= t.len(),
    ensures
        0 <= digits_val(t.take(k)) <= digits_val(t),
    decreases t.len(),
{
    if k == t.len() {
        assert(t.take(k) =~= t);
        lemma_digits_val_nonneg(t);
    } else {
        assert(t.take(k) =~= t.drop_last().take(k));
        assert(all_digits(t.drop_last()));
        lemma_digits_val_prefix(t.drop_last(), k);
        lemma_digits_val_nonneg(t.drop_last());
        assert(digit_val(t.last()) >= 0);
    }
}

/// A digit string's value is non-negative.
proof fn lemma_digits_val_nonneg(t: Seq<char>)
    requires
        all_digits(t),
    ensures
        digits_val(t) >= 0,
    decreases t.len(),
{
    if t.len() > 0 {
        assert(all_digits(t.drop_last()));
        lemma_digits_val_nonneg(t.drop_last());
    }
}

/// Ten to the power `k`.
pub open spec fn pow10(k: nat) -> int
    decreases k,
{
    if k == 0 {
        1
    } else {
        10 * pow10((k - 1) as nat)
    }
}

/// Powers of ten are positive.
proof fn lemma_pow10_pos(k: nat)
    ensures
        pow10(k) >= 1,
    decreases k,
{
    if k > 0 {
        lemma_pow10_pos((k - 1) as nat);
    }
}

/// Powers of ten grow with the exponent.
proof fn lemma_pow10_mono(j: nat, k: nat)
    requires
        j <= k,
    ensures
        1 <= pow10(j) <= pow10(k),
    decreases k,
{
    lemma_pow10_pos(j);
    if j < k {
        lemma_pow10_mono(j, (k - 1) as nat);
        lemma_pow10_pos((k - 1) as nat);
    }
}

/// The digits of a number range: everything but the one optional dot.
pub open spec fn number_digits(t: Seq<char>) -> Seq<char> {
    let fd = first_dot(t);
    if fd == t.len() {
        t
    } else {
        t.take(fd) + t.skip(fd + 1)
    }
}

/// How many digits follow the dot of a number range.
pub open spec fn frac_len(t: Seq<char>) -> nat {
    let fd = first_dot(t);
    if fd == t.len() {
        0
    } else {
        (t.len() - fd - 1) as nat
    }
}

/// The value a number range denotes: its digits over ten to the number
/// of fractional digits, or `Overflow` where either part leaves its range.
pub open spec fn spec_parse_number(t: Seq<char>) -> Result<Number, CalcError> {
    let v = digits_val(number_digits(t));
    let p = pow10(frac_len(t));
    if v > i64::MAX as int || p > u64::MAX as int {
        Err(CalcError::Overflow)
    } else {
        Ok(Number { num: v as i64, den: p as u64 })
    }
}

/// In a parseable range, every character off the first dot is a digit.
proof fn lemma_parseable_digits(t: Seq<char>)
    requires
        parseable(t),
    ensures
        all_digits(number_digits(t)),
        number_digits(t).len() == t.len() - (if first_dot(t) == t.len() {
            0int
        } else {
            1int
        }),
{
    lemma_first_dot(t);
    let fd = first_dot(t);
    let nd = number_digits(t);
    if fd < t.len() {
        assert forall|k: int| 0 <= k < nd.len() implies is_digit_char(nd[k]) by {
            if k < fd {
                assert(nd[k] == t[k]);
                assert(t[k] != '.');
            } else {
                assert(nd[k] == t[k + 1]);
                assert(t[k + 1] == '.' ==> k + 1 == fd);
                assert(t[k + 1] != '.');
            }
        }
    } else {
        assert forall|k: int| 0 <= k < nd.len() implies is_digit_char(nd[k]) by {
            assert(t[k] != '.');
        }
    }
}

/// Parses the characters of `s` in `[a, b)` as a decimal number, exactly
/// as `spec_parse_number` describes.
pub fn parse_number(s: &Vec<char>, a: usize, b: usize) -> (r: Result<Number, CalcError>)
    requires
        a < b <= s@.len(),
        parseable(s@.subrange(a as int, b as int)),
    ensures
        r == spec_parse_number(s@.subrange(a as int, b as int)),
{
    let ghost sub: Seq<char> = s@.subrange(a as int, b as int);
    proof {
        lemma_first_dot(sub);
        lemma_parseable_digits(sub);
    }
    let ghost fd: int = first_dot(sub);
    let ghost nd: Seq<char> = number_digits(sub);

    // Locate the dot, keeping only the first occurrence.
    let mut dp: usize = b;
    let mut i: usize = a;
    while i < b
        invariant
            a <= i <= b <= s@.len(),
            a <= dp <= b,
            sub == s@.subrange(a as int, b as int),
            dp == b ==> forall|k: int| 0 <= k < i - a ==> sub[k] != '.',
            dp < b ==> a <= dp && (dp as int) < i && sub[dp - a] == '.' && (forall|k: int|
                0 <= k < dp - a ==> sub[k] != '.'),
        decreases b - i,
    {
        if s[i] == '.' && dp == b {
            dp = i;
        }
        i = i + 1;
    }
    proof {
        if dp == b {
            assert(fd == sub.len());
        } else {
            assert(sub[dp - a] == '.');
            assert(fd <= dp - a);
            assert(fd == dp - a);
        }
        assert(nd.len() as int == (if fd == sub.len() {
            sub.len() as int
        } else {
            sub.len() as int - 1
        }));
    }

    // Accumulate the digits before the dot.
    let mut num: i64 = 0;
    let mut j: usize = a;
    while j < dp
        invariant
            a <= j <= dp <= b <= s@.len(),
            sub == s@.subrange(a as int, b as int),
            fd == first_dot(sub),
            nd == number_digits(sub),
            parseable(sub),
            all_digits(nd),
            dp == b ==> fd == sub.len(),
            dp < b ==> fd == dp - a,
            num >= 0,
            num == digits_val(nd.take(j - a)),
        decreases dp - j,
    {
        proof {
            assert(sub[j - a] == s@[j as int]);
            assert(nd[j - a] == sub[j - a]);
            assert(is_digit_char(s@[j as int]));
        }
        let d: i64 = (s[j] as u32 - 48) as i64;
        let stepped: Option<i64> = match num.checked_mul(10) {
            Some(x) => x.checked_add(d),
            None => None,
        };
        match stepped {
            Some(x) => {
                proof {
                    assert(nd.take(j - a + 1).drop_last() =~= nd.take(j - a));
                    assert(nd.take(j - a + 1).last() == nd[j - a]);
                }
                num = x;
            },
            None => {
                proof {
                    assert(nd.take(j - a + 1).drop_last() =~= nd.take(j - a));
                    assert(nd.take(j - a + 1).last() == nd[j - a]);
                    assert(digits_val(nd.take(j - a + 1)) > i64::MAX as int);
                    lemma_digits_val_prefix(nd, j - a + 1);
                }
                return Err(CalcError::Overflow);
            },
        }
        j = j + 1;
    }

    let mut den: u64 = 1;
    if dp < b {
        // Accumulate the digits after the dot, tracking the denominator.
        let mut j2: usize = dp + 1;
        while j2 < b
            invariant
                a <= dp && (dp as int) < b <= s@.len(),
                dp + 1 <= j2 <= b,
                sub == s@.subrange(a as int, b as int),
                fd == first_dot(sub),
                fd == dp - a,
                nd == number_digits(sub),
                parseable(sub),
                all_digits(nd),
                num >= 0,
                num == digits_val(nd.take(fd + (j2 - dp - 1))),
                den == pow10((j2 - dp - 1) as nat),
            decreases b - j2,
        {
            proof {
                assert(sub[j2 - a] == s@[j2 as int]);
                assert(nd[fd + (j2 - dp - 1)] == sub[fd + (j2 - dp - 1) + 1]);
                assert(fd + (j2 - dp - 1) + 1 == j2 - a);
                assert(is_digit_char(s@[j2 as int]));
            }
            let d: i64 = (s[j2] as u32 - 48) as i64;
            let stepped: Option<i64> = match num.checked_mul(10) {
                Some(x) => x.checked_add(d),
                None => None,
            };
            match stepped {
                Some(x) => {
                    proof {
                        assert(nd.take(fd + (j2 - dp - 1) + 1).drop_last() =~= nd.take(
                            fd + (j2 - dp - 1),
                        ));
                        assert(nd.take(fd + (j2 - dp - 1) + 1).last() == nd[fd + (j2 - dp - 1)]);
                    }
                    num = x;
                },
                None => {
                    proof {
                        assert(nd.take(fd + (j2 - dp - 1) + 1).drop_last() =~= nd.take(
                            fd + (j2 - dp - 1),
                        ));
                        assert(nd.take(fd + (j2 - dp - 1) + 1).last() == nd[fd + (j2 - dp - 1)]);
                        assert(digits_val(nd.take(fd + (j2 - dp - 1) + 1)) > i64::MAX as int);
                        lemma_digits_val_prefix(nd, fd + (j2 - dp - 1) + 1);
                    }
                    return Err(CalcError::Overflow);
                },
            }
            match den.checked_mul(10) {
                Some(x) => {
                    den = x;
                },
                None => {
                    proof {
                        assert(pow10((j2 - dp) as nat) > u64::MAX as int);
                        lemma_pow10_mono((j2 - dp) as nat, frac_len(sub));
                    }
                    return Err(CalcError::Overflow);
                },
            }
            j2 = j2 + 1;
        }
        proof {
            assert(fd + (b - dp - 1) == nd.len());
            assert(nd.take(fd + (b - dp - 1)) =~= nd);
            assert(frac_len(sub) == (b - dp - 1) as nat);
        }
    } else {
        proof {
            assert(nd.take(b - a) =~= nd);
            assert(frac_len(sub) == 0);
        }
    }
    Ok(Number { num, den })
}

/// The token a single scanned range denotes.
pub open spec fn spec_lex_one(s: Seq<char>, r: TokenIndexes) -> Result<Token, CalcError> {
    match r {
        TokenIndexes::Number(a, b) => match spec_parse_number(
            s.subrange(a as int, b as int),
        ) {
            Ok(n) => Ok(Token::Number(n)),
            Err(e) => Err(e),
        },
        TokenIndexes::Operator(a, _) => Ok(Token::Operator(spec_op_of(s[a as int]))),
    }
}

/// The operator a single character denotes.
pub open spec fn spec_op_of(c: char) -> Operator {
    if c == '+' {
        Operator::Add
    } else if c == '-' {
        Operator::Sub
    } else if c == '*' {
        Operator::Mul
    } else {
        Operator::Div
    }
}

/// The tokens of the given ranges, left to right, stopping at the first
/// range that fails to parse.
pub open spec fn spec_lex(s: Seq<char>, rs: Seq<TokenIndexes>) -> Result<Seq<Token>, CalcError>
    decreases rs.len(),
{
    if rs.len() == 0 {
        Ok(Seq::empty())
    } else {
        match spec_lex(s, rs.drop_last()) {
            Err(e) => Err(e),
            Ok(ts) => match spec_lex_one(s, rs.last()) {
                Err(e) => Err(e),
                Ok(t) => Ok(ts.push(t)),
            },
        }
    }
}

/// The token sequence of `s`: its scanned ranges, each turned into a token.
pub open spec fn spec_tokenize(s: Seq<char>) -> Result<Seq<Token>, CalcError> {
    match spec_scan(s) {
        Err(e) => Err(e),
        Ok(rs) => spec_lex(s, rs),
    }
}

/// A failed prefix decides the whole lexing run.
proof fn lemma_lex_prefix_err(s: Seq<char>, rs: Seq<TokenIndexes>, k: int)
    requires
        0 <= k <= rs.len(),
        spec_lex(s, rs.take(k)) is Err,
    ensures
        spec_lex(s, rs) == spec_lex(s, rs.take(k)),
    decreases rs.len() - k,
{
    if k == rs.len() {
        assert(rs.take(k) =~= rs);
    } else {
        assert(rs.take(k + 1).drop_last() =~= rs.take(k));
        assert(rs.take(k + 1).last() == rs[k]);
        lemma_lex_prefix_err(s, rs, k + 1);
    }
}

/// The view of an executable lexing result as a mathematical one.
pub open spec fn lex_view(r: Result<Vec<Token>, CalcError>) -> Result<Seq<Token>, CalcError> {
    match r {
        Ok(v) => Ok(v@),
        Err(e) => Err(e),
    }
}

/// Scans `input` and converts each range into a token, exactly as
/// `spec_tokenize` describes: number ranges become exact rationals,
/// operator ranges the four operators, and a scan error is passed on
/// unchanged.
pub fn tokenize(input: &Vec<char>) -> (r: Result<Vec<Token>, CalcError>)
    requires
        spec_numbers_parseable(input@),
    ensures
        lex_view(r) == spec_tokenize(input@),
{
    let ranges: Vec<TokenIndexes> = match index_tokens(input) {
        Ok(v) => v,
        Err(e) => {
            return Err(e);
        },
    };
    proof {
        assert(input.len() == input@.len());
        lemma_scan_ranges_wf(input@, ranges@);
    }
    let mut tokens: Vec<Token> = Vec::new();
    let n: usize = ranges.len();
    let mut j: usize = 0;
    while j < n
        invariant
            0 <= j <= n,
            n == ranges@.len(),
            spec_scan(input@) == Ok::<Seq<TokenIndexes>, CalcError>(ranges@),
            spec_numbers_parseable(input@),
            forall|m: int| 0 <= m < n ==> range_wf(#[trigger] ranges@[m], input@),
            spec_lex(input@, ranges@.take(j as int)) == Ok::<Seq<Token>, CalcError>(tokens@),
        decreases n - j,
    {
        match ranges[j] {
            TokenIndexes::Number(a, b) => {
                proof {
                    assert(range_wf(ranges@[j as int], input@));
                    assert(ranges@[j as int].start() == a && ranges@[j as int].end() == b);
                    assert(parseable(input@.subrange(a as int, b as int)));
                }
                match parse_number(input, a, b) {
                    Ok(value) => {
                        tokens.push(Token::Number(value));
                    },
                    Err(e) => {
                        proof {
                            assert(ranges@.take(j + 1).drop_last() =~= ranges@.take(j as int));
                            assert(ranges@.take(j + 1).last() == ranges@[j as int]);
                            assert(spec_lex(input@, ranges@.take(j + 1)) == Err::<
                                Seq<Token>,
                                CalcError,
                            >(e));
                            lemma_lex_prefix_err(input@, ranges@, j + 1);
                        }
                        return Err(e);
                    },
                }
            },
            TokenIndexes::Operator(a, _) => {
                let c: char = input[a];
                let op: Operator = if c == '+' {
                    Operator::Add
                } else if c == '-' {
                    Operator::Sub
                } else if c == '*' {
                    Operator::Mul
                } else {
                    Operator::Div
                };
                tokens.push(Token::Operator(op));
            },
        }
        proof {
            assert(ranges@.take(j + 1).drop_last() =~= ranges@.take(j as int));
            assert(ranges@.take(j + 1).last() == ranges@[j as int]);
        }
        j = j + 1;
    }
    proof {
        assert(ranges@.take(n as int) =~= ranges@);
    }
    Ok(tokens)
}

/// Decides whether the characters of `s` in `[a, b)` form a parseable
/// number range.
fn range_parseable(s: &Vec<char>, a: usize, b: usize) -> (r: bool)
    requires
        a < b <= s@.len(),
    ensures
        r == parseable(s@.subrange(a as int, b as int)),
{
    let ghost sub: Seq<char> = s@.subrange(a as int, b as int);
    let len: usize = b - a;
    let mut all_nc: bool = true;
    let mut has_digit: bool = false;
    let mut dot_pos: usize = len;
    let mut dots: usize = 0;
    let mut i: usize = 0;
    while i < len
        invariant
            0 <= i <= len,
            a < b <= s@.len(),
            len == b - a,
            dots <= i,
            sub == s@.subrange(a as int, b as int),
            all_nc <==> (forall|k: int| 0 <= k < i ==> is_number_char(sub[k])),
            has_digit <==> (exists|k: int| 0 <= k < i && is_digit_char(sub[k])),
            dots == 0 ==> dot_pos == len && (forall|k: int| 0 <= k < i ==> sub[k] != '.'),
            dots > 0 ==> (dot_pos as int) < i && sub[dot_pos as int] == '.',
            dots == 1 ==> forall|k: int| 0 <= k < i && sub[k] == '.' ==> k == dot_pos as int,
            dots >= 2 ==> exists|k: int, l: int|
                0 <= k < i && 0 <= l < i && k != l && sub[k] == '.' && sub[l] == '.',
        decreases len - i,
    {
        let c: char = s[a + i];
        proof {
            assert(sub[i as int] == s@[a + i]);
        }
        let u: u32 = c as u32;
        let digit: bool = 48 <= u && u <= 57;
        if !(digit || c == '.') {
            all_nc = false;
        }
        if digit {
            has_digit = true;
        }
        if c == '.' {
            if dots == 0 {
                dot_pos = i;
            } else {
                proof {
                    assert(sub[dot_pos as int] == '.' && sub[i as int] == '.' && dot_pos as int
                        != i as int);
                }
            }
            dots = dots + 1;
        }
        i = i + 1;
    }
    let ok: bool = all_nc && has_digit && dots <= 1;
    proof {
        if ok {
            assert forall|k: int, l: int|
                0 <= k < sub.len() && 0 <= l < sub.len() && sub[k] == '.' && sub[l]
                    == '.' implies k == l by {
                if dots == 0 {
                    assert(sub[k] != '.');
                } else {
                    assert(k == dot_pos as int);
                    assert(l == dot_pos as int);
                }
            }
            assert(parseable(sub));
        } else {
            if dots >= 2 {
                let (k, l) = choose|k: int, l: int|
                    0 <= k < sub.len() && 0 <= l < sub.len() && k != l && sub[k] == '.' && sub[l]
                        == '.';
                assert(!parseable(sub));
            }
        }
    }
    ok
}

/// Decides whether every number range that scanning `input` yields can be
/// parsed, which is what `tokenize` and `evaluate` require. A text that
/// fails to scan passes vacuously: scanning reports its own error.
pub fn numbers_parseable(input: &Vec<char>) -> (r: bool)
    ensures
        r == spec_numbers_parseable(input@),
{
    let ranges: Vec<TokenIndexes> = match index_tokens(input) {
        Ok(v) => v,
        Err(_) => {
            return true;
        },
    };
    proof {
        assert(input.len() == input@.len());
        lemma_scan_ranges_wf(input@, ranges@);
    }
    let n: usize = ranges.len();
    let mut j: usize = 0;
    while j < n
        invariant
            0 <= j <= n,
            n == ranges@.len(),
            spec_scan(input@) == Ok::<Seq<TokenIndexes>, CalcError>(ranges@),
            forall|m: int| 0 <= m < n ==> range_wf(#[trigger] ranges@[m], input@),
            forall|m: int|
                0 <= m < j && ranges@[m] is Number ==> parseable(
                    input@.subrange(#[trigger] ranges@[m].start() as int, ranges@[m].end() as int),
                ),
        decreases n - j,
    {
        match ranges[j] {
            TokenIndexes::Number(a, b) => {
                proof {
                    assert(range_wf(ranges@[j as int], input@));
                    assert(ranges@[j as int].start() == a && ranges@[j as int].end() == b);
                }
                if !range_parseable(input, a, b) {
                    proof {
                        assert(!parseable(
                            input@.subrange(ranges@[j as int].start() as int, ranges@[j as int].end() as int),
                        ));
                    }
                    return false;
                }
            },
            TokenIndexes::Operator(_, _) => {},
        }
        j = j + 1;
    }
    true
}

} // verus!
