use vstd::prelude::*;

use crate::token::{CalcError, TokenIndexes};

verus! {

/// Whether `c` is a decimal digit.
pub open spec fn is_digit_char(c: char) -> bool {
    48 <= c as u32 && c as u32 <= 57
}

/// Whether `c` may stand inside a number range: a digit or `.`.
pub open spec fn is_number_char(c: char) -> bool {
    is_digit_char(c) || c == '.'
}

/// Whether `c` is one of the four operator characters.
pub open spec fn is_operator_char(c: char) -> bool {
    c == '+' || c == '-' || c == '*' || c == '/'
}

/// Whether `c` is one of the two rejected delimiter characters.
pub open spec fn is_delimiter_char(c: char) -> bool {
    c == ',' || c == '\''
}

/// Whether the scanner accepts `c`: digits, `.`, operators and space.
pub open spec fn valid_char(c: char) -> bool {
    is_number_char(c) || is_operator_char(c) || c == ' '
}

/// The scanner's state machine from position `i` on, with the ranges
/// found so far in `acc` and the "currently inside a number" flag `inn`.
///
/// A digit or `.` extends the last number range when `inn` holds, else it
/// starts a fresh one-wide number range; an operator pushes a one-wide
/// operator range; a space only clears the flag; `,` and `'` stop the
/// scan with `InvalidDelimiter`, every other character with
/// `InvalidCharacter`.
pub open spec fn spec_scan_from(
    s: Seq<char>,
    i: int,
    acc: Seq<TokenIndexes>,
    inn: bool,
) -> Result<Seq<TokenIndexes>, CalcError>
    decreases s.len() - i,
{
    if i < 0 || i >= s.len() {
        Ok(acc)
    } else {
        let c = s[i];
        if is_number_char(c) {
            let acc2 = if inn && acc.len() > 0 {
                acc.drop_last().push(TokenIndexes::Number(acc.last().start(), (i + 1) as usize))
            } else {
                acc.push(TokenIndexes::Number(i as usize, (i + 1) as usize))
            };
            spec_scan_from(s, i + 1, acc2, true)
        } else if is_operator_char(c) {
            spec_scan_from(s, i + 1, acc.push(TokenIndexes::Operator(i as usize, (i + 1) as usize)), false)
        } else if c == ' ' {
            spec_scan_from(s, i + 1, acc, false)
        } else if is_delimiter_char(c) {
            Err(CalcError::InvalidDelimiter)
        } else {
            Err(CalcError::InvalidCharacter)
        }
    }
}

/// The token ranges of `s`, or the error raised at the first bad character.
pub open spec fn spec_scan(s: Seq<char>) -> Result<Seq<TokenIndexes>, CalcError> {
    spec_scan_from(s, 0, Seq::empty(), false)
}

/// The view of an executable scan result as a mathematical one.
pub open spec fn scan_view(r: Result<Vec<TokenIndexes>, CalcError>) -> Result<
    Seq<TokenIndexes>,
    CalcError,
> {
    match r {
        Ok(v) => Ok(v@),
        Err(e) => Err(e),
    }
}

/// Locates the token ranges of `input`: maximal runs of digits and dots
/// become number ranges, each operator character a one-wide operator
/// range, exactly as `spec_scan` describes. It succeeds if and only if
/// every character is a digit, `.`, an operator or a space.
pub fn index_tokens(input: &Vec<char>) -> (r: Result<Vec<TokenIndexes>, CalcError>)
    ensures
        scan_view(r) == spec_scan(input@),
        r is Ok <==> (forall|k: int| 0 <= k < input@.len() ==> valid_char(input@[k])),
{
    let mut indexes: Vec<TokenIndexes> = Vec::new();
    let mut in_number: bool = false;
    let mut i: usize = 0;
    let n: usize = input.len();
    while i < n
        invariant
            0 <= i <= n,
            n == input@.len(),
            spec_scan(input@) == spec_scan_from(input@, i as int, indexes@, in_number),
            in_number ==> indexes@.len() > 0 && indexes@.last() is Number,
            forall|k: int| 0 <= k < i ==> valid_char(input@[k]),
        decreases n - i,
    {
        let c = input[i];
        let u = c as u32;
        if (48 <= u && u <= 57) || c == '.' {
            if in_number {
                match indexes.pop() {
                    Some(TokenIndexes::Number(a, _)) => {
                        indexes.push(TokenIndexes::Number(a, i + 1));
                    },
                    _ => {
                        proof {
                            assert(false);
                        }
                    },
                }
            } else {
                indexes.push(TokenIndexes::Number(i, i + 1));
            }
            in_number = true;
        } else if c == '*' || c == '/' || c == '+' || c == '-' {
            indexes.push(TokenIndexes::Operator(i, i + 1));
            in_number = false;
        } else if c == ' ' {
            in_number = false;
        } else if c == ',' || c == '\'' {
            proof {
                lemma_scan_from_err(input@, i as int, indexes@, in_number);
            }
            return Err(CalcError::InvalidDelimiter);
        } else {
            proof {
                lemma_scan_from_err(input@, i as int, indexes@, in_number);
            }
            return Err(CalcError::InvalidCharacter);
        }
        i = i + 1;
    }
    proof {
        lemma_scan_from_all_valid(input@, i as int, indexes@, in_number);
    }
    Ok(indexes)
}

/// From a position whose character is invalid, the scan fails and never
/// reaches a later character.
proof fn lemma_scan_from_err(s: Seq<char>, i: int, acc: Seq<TokenIndexes>, inn: bool)
    requires
        0 <= i < s.len(),
        !valid_char(s[i]),
    ensures
        spec_scan_from(s, i, acc, inn) == Err::<Seq<TokenIndexes>, CalcError>(
            if is_delimiter_char(s[i]) {
                CalcError::InvalidDelimiter
            } else {
                CalcError::InvalidCharacter
            },
        ),
{
}

/// From a position after which every character is valid, the scan succeeds.
proof fn lemma_scan_from_all_valid(s: Seq<char>, i: int, acc: Seq<TokenIndexes>, inn: bool)
    requires
        0 <= i <= s.len(),
        forall|k: int| i <= k < s.len() ==> valid_char(s[k]),
    ensures
        spec_scan_from(s, i, acc, inn) is Ok,
    decreases s.len() - i,
{
    if i < s.len() {
        let c = s[i];
        if is_number_char(c) {
            let acc2 = if inn && acc.len() > 0 {
                acc.drop_last().push(TokenIndexes::Number(acc.last().start(), (i + 1) as usize))
            } else {
                acc.push(TokenIndexes::Number(i as usize, (i + 1) as usize))
            };
            lemma_scan_from_all_valid(s, i + 1, acc2, true);
        } else if is_operator_char(c) {
            lemma_scan_from_all_valid(
                s,
                i + 1,
                acc.push(TokenIndexes::Operator(i as usize, (i + 1) as usize)),
                false,
            );
        } else {
            lemma_scan_from_all_valid(s, i + 1, acc, false);
        }
    }
}

/// The scan of a text with an invalid character, all characters before it
/// valid, fails: with `InvalidDelimiter` when that character is `,` or
/// `'`, with `InvalidCharacter` otherwise.
pub proof fn lemma_scan_stops_at_first_invalid(s: Seq<char>, j: int)
    requires
        0 <= j < s.len(),
        !valid_char(s[j]),
        forall|k: int| 0 <= k < j ==> valid_char(s[k]),
    ensures
        spec_scan(s) == Err::<Seq<TokenIndexes>, CalcError>(
            if is_delimiter_char(s[j]) {
                CalcError::InvalidDelimiter
            } else {
                CalcError::InvalidCharacter
            },
        ),
{
    lemma_scan_prefix_valid(s, 0, Seq::empty(), false, j);
}

/// Helper for `lemma_scan_stops_at_first_invalid`, generalised over the
/// scanner state.
proof fn lemma_scan_prefix_valid(s: Seq<char>, i: int, acc: Seq<TokenIndexes>, inn: bool, j: int)
    requires
        0 <= i <= j < s.len(),
        !valid_char(s[j]),
        forall|k: int| i <= k < j ==> valid_char(s[k]),
    ensures
        spec_scan_from(s, i, acc, inn) == Err::<Seq<TokenIndexes>, CalcError>(
            if is_delimiter_char(s[j]) {
                CalcError::InvalidDelimiter
            } else {
                CalcError::InvalidCharacter
            },
        ),
    decreases s.len() - i,
{
    if i == j {
        lemma_scan_from_err(s, i, acc, inn);
    } else {
        let c = s[i];
        if is_number_char(c) {
            let acc2 = if inn && acc.len() > 0 {
                acc.drop_last().push(TokenIndexes::Number(acc.last().start(), (i + 1) as usize))
            } else {
                acc.push(TokenIndexes::Number(i as usize, (i + 1) as usize))
            };
            lemma_scan_prefix_valid(s, i + 1, acc2, true, j);
        } else if is_operator_char(c) {
            lemma_scan_prefix_valid(
                s,
                i + 1,
                acc.push(TokenIndexes::Operator(i as usize, (i + 1) as usize)),
                false,
                j,
            );
        } else {
            lemma_scan_prefix_valid(s, i + 1, acc, false, j);
        }
    }
}

/// Scanning has no hidden state: the ranges found for a text are a pure
/// function of that text, so scanning the same text twice agrees.
pub proof fn lemma_scan_deterministic(s1: Seq<char>, s2: Seq<char>)
    requires
        s1 == s2,
    ensures
        spec_scan(s1) == spec_scan(s2),
{
}

} // verus!
