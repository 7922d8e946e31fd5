//! Antenna specifiers: a name, or a count, a colon and a name.

use vstd::prelude::*;
use crate::error::{CountError, Error, MessageError};

verus! {

/// Whether `c` is one of the digits 0 to 9.
pub open spec fn is_digit(c: char) -> bool {
    48 <= (c as u32) && (c as u32) <= 57
}

/// The digits 0 to 9 only.
pub open spec fn all_digits(s: Seq<char>) -> bool {
    forall|i: int| 0 <= i < s.len() ==> is_digit(#[trigger] s[i])
}

/// The number that a run of digits stands for.
pub open spec fn decimal_value(s: Seq<char>) -> nat
    decreases s.len(),
{
    if s.len() == 0 {
        0
    } else {
        decimal_value(s.drop_last()) * 10 + ((s.last() as u32) - 48) as nat
    }
}

/// How many digits stand at the beginning of `s`.
pub open spec fn digit_run(s: Seq<char>) -> int
    decreases s.len(),
{
    if s.len() > 0 && is_digit(s[0]) {
        1 + digit_run(s.drop_first())
    } else {
        0
    }
}

/// The count that a text stands for: digits, with or without a plus sign
/// before them, whose number fits the machine's word. The text is read from
/// the left, and the first thing wrong with it is the error: digits whose
/// number does not fit come before a later character that is no digit.
pub open spec fn count_of(s: Seq<char>) -> Result<nat, CountError> {
    if s.len() == 0 {
        Err(CountError::Empty)
    } else {
        let digits = if s[0] == '+' {
            s.drop_first()
        } else {
            s
        };
        let lead = digits.take(digit_run(digits));
        if digits.len() == 0 {
            Err(CountError::InvalidDigit)
        } else if decimal_value(lead) > usize::MAX {
            Err(CountError::Overflow)
        } else if lead.len() < digits.len() {
            Err(CountError::InvalidDigit)
        } else {
            Ok(decimal_value(digits))
        }
    }
}

/// The digits at the beginning of `s` are digits, and what follows them is
/// none.
pub proof fn lemma_digit_run(s: Seq<char>)
    ensures
        0 <= digit_run(s) <= s.len(),
        all_digits(s.take(digit_run(s))),
        digit_run(s) < s.len() ==> !is_digit(s[digit_run(s)]),
    decreases s.len(),
{
    if s.len() > 0 && is_digit(s[0]) {
        let t = s.drop_first();
        lemma_digit_run(t);
        let lead = s.take(digit_run(s));
        assert forall|i: int| 0 <= i < lead.len() implies is_digit(#[trigger] lead[i]) by {
            if i > 0 {
                assert(lead[i] == t.take(digit_run(t))[i - 1]);
            }
        }
        if digit_run(s) < s.len() {
            assert(s[digit_run(s)] == t[digit_run(t)]);
        }
    }
}

/// Where `s` begins with `k` digits and goes on with none, `k` is the number
/// of digits at its beginning.
pub proof fn lemma_digit_run_is(s: Seq<char>, k: int)
    requires
        0 <= k <= s.len(),
        all_digits(s.take(k)),
        k < s.len() ==> !is_digit(s[k]),
    ensures
        digit_run(s) == k,
{
    lemma_digit_run(s);
    let run = digit_run(s);
    if run < k {
        assert(s.take(k)[run] == s[run]);
    }
    if k < run {
        assert(s.take(run)[k] == s[k]);
    }
}

/// The beginning of a run of digits stands for no greater number than the
/// whole run.
pub proof fn lemma_decimal_prefix(s: Seq<char>, k: int)
    requires
        0 <= k <= s.len(),
    ensures
        decimal_value(s.take(k)) <= decimal_value(s),
    decreases s.len(),
{
    if k == s.len() {
        assert(s.take(k) =~= s);
    } else {
        assert(s.drop_last().take(k) =~= s.take(k));
        lemma_decimal_prefix(s.drop_last(), k);
    }
}

/// A run of digits with one more digit stands for ten times its number and
/// the digit.
pub proof fn lemma_decimal_push(seen: Seq<char>, c: char)
    ensures
        decimal_value(seen.push(c)) == decimal_value(seen) * 10 + ((c as u32) - 48) as nat,
{
    assert(seen.push(c).drop_last() =~= seen);
}

/// The value of `c` as a digit; `None` where it is none.
fn digit_of(c: char) -> (r: Option<usize>)
    ensures
        match r {
            Some(d) => is_digit(c) && d == (c as u32) - 48,
            None => !is_digit(c),
        },
{
    if c >= '0' && c <= '9' {
        Some((c as u32 - 48) as usize)
    } else {
        None
    }
}

/// Ten times `acc` and `d`; `None` where that does not fit.
fn push_digit(acc: usize, d: usize) -> (r: Option<usize>)
    requires
        d <= 9,
    ensures
        match r {
            Some(v) => v == acc * 10 + d,
            None => acc * 10 + d > usize::MAX,
        },
{
    if acc > (usize::MAX - d) / 10 {
        None
    } else {
        Some(acc * 10 + d)
    }
}

/// The count that a text stands for.
pub fn parse_count(s: &str) -> (r: Result<usize, CountError>)
    ensures
        match r {
            Ok(n) => count_of(s@) == Ok::<nat, CountError>(n as nat),
            Err(e) => count_of(s@) == Err::<nat, CountError>(e),
        },
{
    let n: usize = s.unicode_len();
    if n == 0 {
        return Err(CountError::Empty);
    }
    let start: usize = if s.get_char(0) == '+' { 1 } else { 0 };
    if start == n {
        return Err(CountError::InvalidDigit);
    }
    let ghost digits = if s@[0] == '+' { s@.drop_first() } else { s@ };
    assert(digits =~= s@.subrange(start as int, n as int));
    let mut acc: usize = 0;
    let mut i: usize = start;
    let mut fault: Option<CountError> = None;
    let ghost mut seen: Seq<char> = Seq::empty();
    assert(seen =~= digits.take(0));
    while i < n && fault.is_none()
        invariant
            start <= i <= n,
            n == s@.len(),
            digits == s@.subrange(start as int, n as int),
            digits == if s@[0] == '+' { s@.drop_first() } else { s@ },
            seen == digits.take(i - start),
            all_digits(seen),
            acc == decimal_value(seen),
            fault is Some ==> count_of(s@) == Err::<nat, CountError>(fault->0),
        decreases n - i + if fault is Some { 0int } else { 1int },
    {
        let c = s.get_char(i);
        assert(digits[i - start] == c);
        match digit_of(c) {
            Some(d) => {
                proof {
                    lemma_decimal_push(seen, c);
                    assert(seen.push(c) =~= digits.take(i - start + 1));
                }
                match push_digit(acc, d) {
                    Some(v) => {
                        acc = v;
                        proof {
                            seen = seen.push(c);
                        }
                        i += 1;
                    },
                    None => {
                        proof {
                            let longer = seen.push(c);
                            lemma_digit_run(digits);
                            let run = digit_run(digits);
                            if run < i - start + 1 {
                                assert(longer[run] == digits[run]);
                            }
                            let lead = digits.take(run);
                            assert(lead.take(i - start + 1) =~= longer);
                            lemma_decimal_prefix(lead, i - start + 1);
                        }
                        fault = Some(CountError::Overflow);
                    },
                }
            },
            None => {
                proof {
                    lemma_digit_run_is(digits, i - start);
                }
                fault = Some(CountError::InvalidDigit);
            },
        }
    }
    match fault {
        Some(e) => Err(e),
        None => {
            proof {
                assert(seen =~= digits);
                lemma_digit_run_is(digits, digits.len() as int);
                assert(digits.take(digits.len() as int) =~= digits);
            }
            Ok(acc)
        },
    }
}

/// The place of the first colon of `s`, or the length of `s` where it holds
/// none.
pub open spec fn first_colon(s: Seq<char>) -> int
    decreases s.len(),
{
    if s.len() == 0 {
        0
    } else if s[0] == ':' {
        0
    } else {
        1 + first_colon(s.drop_first())
    }
}

/// `c` is the place of the first colon of `s`, or its length.
pub proof fn lemma_first_colon(s: Seq<char>, c: int)
    requires
        0 <= c <= s.len(),
        forall|j: int| 0 <= j < c ==> s[j] != ':',
        c < s.len() ==> s[c] == ':',
    ensures
        first_colon(s) == c,
    decreases s.len(),
{
    if c > 0 {
        let t = s.drop_first();
        assert forall|j: int| 0 <= j < c - 1 implies t[j] != ':' by {
            assert(t[j] == s[j + 1]);
        }
        lemma_first_colon(t, c - 1);
    }
}

/// Why a specifier cannot be split.
pub enum SplitFault {
    /// What stands before the colon is no count.
    Count(CountError),
    /// The specifier holds more than one colon.
    Malformed,
}

/// The count and the name of a specifier. A specifier without a colon is a
/// name, and its count is 1. With one colon, the count stands before it and
/// the name after it.
pub open spec fn split_spec(s: Seq<char>) -> Result<(nat, Seq<char>), SplitFault> {
    let c = first_colon(s);
    if c == s.len() {
        Ok((1nat, s))
    } else {
        let name = s.skip(c + 1);
        if first_colon(name) < name.len() {
            Err(SplitFault::Malformed)
        } else {
            match count_of(s.take(c)) {
                Ok(n) => Ok((n, name)),
                Err(e) => Err(SplitFault::Count(e)),
            }
        }
    }
}

/// The text of the error for a specifier `s` with more than one colon.
pub open spec fn malformed_text(s: Seq<char>) -> Seq<char> {
    "antenna specifier should be [<NUMBER_OF_ANTENNA>:]<ANTENNA_NAME>, but "@ + s
}

/// The place of the first colon of `s` from `from` on, or the length of `s`.
fn find_colon(s: &str, from: usize) -> (c: usize)
    requires
        from <= s@.len(),
    ensures
        from <= c <= s@.len(),
        forall|j: int| from <= j < c ==> s@[j] != ':',
        c < s@.len() ==> s@[c as int] == ':',
{
    let n: usize = s.unicode_len();
    let mut c: usize = from;
    while c < n
        invariant
            from <= c <= n,
            n == s@.len(),
            forall|j: int| from <= j < c ==> s@[j] != ':',
        decreases n - c,
    {
        if s.get_char(c) == ':' {
            return c;
        }
        c += 1;
    }
    c
}

/// Splits an antenna specifier into its count and its name.
pub fn split_antenna_arg(s: &str) -> (r: Result<(usize, &str), Error>)
    ensures
        match r {
            Ok((count, name)) => split_spec(s@) == Ok::<(nat, Seq<char>), SplitFault>(
                (count as nat, name@),
            ),
            Err(Error::Count(e)) => split_spec(s@) == Err::<(nat, Seq<char>), SplitFault>(
                SplitFault::Count(e),
            ),
            Err(Error::Message(m)) => split_spec(s@) == Err::<(nat, Seq<char>), SplitFault>(
                SplitFault::Malformed,
            ) && m@ == malformed_text(s@),
        },
{
    let n: usize = s.unicode_len();
    let c: usize = find_colon(s, 0);
    proof {
        lemma_first_colon(s@, c as int);
    }
    if c == n {
        return Ok((1, s));
    }
    let second: usize = find_colon(s, c + 1);
    let name = s.substring_char(c + 1, n);
    proof {
        assert(name@ =~= s@.skip(c + 1));
        assert forall|j: int| 0 <= j < second - (c + 1) implies name@[j] != ':' by {
            assert(name@[j] == s@[j + c + 1]);
        }
        if second < n {
            assert(name@[second - (c + 1)] == s@[second as int]);
        }
        lemma_first_colon(name@, second - (c + 1));
    }
    if second < n {
        let text = String::from_str(
            "antenna specifier should be [<NUMBER_OF_ANTENNA>:]<ANTENNA_NAME>, but ",
        ).concat(s);
        return Err(Error::Message(MessageError::new(text.as_str())));
    }
    let head = s.substring_char(0, c);
    assert(head@ =~= s@.take(c as int));
    match parse_count(head) {
        Ok(count) => Ok((count, name)),
        Err(e) => Err(Error::Count(e)),
    }
}

} // verus!
