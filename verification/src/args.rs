//! The argument parser: the two recognized command lines and the
//! classified failures.

use vstd::prelude::*;

verus! {

/// Why an argument list was rejected.
#[derive(Debug, PartialEq, Eq, Structural, Clone, Copy)]
pub enum ArgError {
    /// The argument list matches neither `PROGRAM FILE` nor
    /// `PROGRAM -n LEN FILE`.
    InvalidUsage,
    /// The shape `PROGRAM -n LEN FILE` was matched, but `LEN` is not a
    /// non-negative integer that fits the machine's word.
    InvalidLength,
}

/// A decimal digit.
pub open spec fn is_digit(c: char) -> bool {
    48 <= c as u32 <= 57
}

/// The value of a decimal digit; zero for any other character.
pub open spec fn digit_val(c: char) -> nat {
    if is_digit(c) {
        (c as u32 - 48) as nat
    } else {
        0
    }
}

/// The value of a string of decimal digits, most significant first.
pub open spec fn digits_val(s: Seq<char>) -> nat
    decreases s.len(),
{
    if s.len() == 0 {
        0
    } else {
        digits_val(s.drop_last()) * 10 + digit_val(s.last())
    }
}

/// The digits of a length token: an optional single leading `+` sign is
/// not part of the value.
pub open spec fn numeral_body(s: Seq<char>) -> Seq<char> {
    if s.len() > 0 && s[0] == '+' {
        s.skip(1)
    } else {
        s
    }
}

/// Whether every character is a decimal digit.
pub open spec fn all_digits(s: Seq<char>) -> bool {
    forall|i: int| 0 <= i < s.len() ==> is_digit(#[trigger] s[i])
}

/// A length token is valid when, after an optional leading `+`, it is one
/// or more decimal digits whose value fits in `usize`.
pub open spec fn valid_len(s: Seq<char>) -> bool {
    &&& numeral_body(s).len() > 0
    &&& all_digits(numeral_body(s))
    &&& digits_val(numeral_body(s)) <= usize::MAX
}

/// The value of a valid length token.
pub open spec fn len_value(s: Seq<char>) -> nat {
    digits_val(numeral_body(s))
}

/// The value of a digit string never falls when more digits follow: a
/// prefix reads at most the whole.
proof fn lemma_digits_val_take_le(s: Seq<char>, k: int)
    requires
        0 <= k <= s.len(),
    ensures
        digits_val(s.take(k)) <= digits_val(s),
    decreases s.len(),
{
    if k == s.len() {
        assert(s.take(k) =~= s);
    } else {
        lemma_digits_val_take_le(s.drop_last(), k);
        assert(s.drop_last().take(k) =~= s.take(k));
    }
}

/// Reads a length token: after an optional leading `+`, one or more
/// decimal digits whose value fits in `usize`.  Any other token gives
/// `None`.
pub fn parse_len(s: &str) -> (r: Option<usize>)
    ensures
        r is Some <==> valid_len(s@),
        r is Some ==> r == Some(len_value(s@) as usize),
{
    let n = s.unicode_len();
    let mut start: usize = 0;
    if n > 0 && s.get_char(0) == '+' {
        start = 1;
    }
    let ghost body = numeral_body(s@);
    proof {
        if start == 1 {
            assert(body == s@.skip(1));
        } else {
            assert(s@.skip(0) =~= s@);
            assert(body == s@.skip(0));
        }
    }
    if start == n {
        proof {
            assert(body.len() == 0);
        }
        return None;
    }
    let limit = usize::MAX / 10;
    let rem = usize::MAX % 10;
    let mut acc: usize = 0;
    let mut i: usize = start;
    proof {
        assert(s@.subrange(start as int, start as int) =~= Seq::<char>::empty());
    }
    while i < n
        invariant
            n == s@.len(),
            start <= i <= n,
            start < n,
            body == numeral_body(s@),
            body == s@.skip(start as int),
            limit == usize::MAX / 10,
            rem == usize::MAX % 10,
            forall|k: int| start <= k < i ==> is_digit(#[trigger] s@[k]),
            acc as nat == digits_val(s@.subrange(start as int, i as int)),
        decreases n - i,
    {
        let c = s.get_char(i);
        let u = c as u32;
        if u < 48 || u > 57 {
            proof {
                assert(!is_digit(s@[i as int]));
                assert(body[i - start] == s@[i as int]);
                assert(!all_digits(body));
            }
            return None;
        }
        let d = (u - 48) as usize;
        let ghost pre = s@.subrange(start as int, i as int);
        let ghost ext = s@.subrange(start as int, i as int + 1);
        proof {
            assert(ext.drop_last() =~= pre);
            assert(ext.last() == s@[i as int]);
            assert(digits_val(ext) == digits_val(pre) * 10 + digit_val(s@[i as int]));
            assert(d as nat == digit_val(s@[i as int]));
        }
        if acc > limit || (acc == limit && d > rem) {
            proof {
                if valid_len(s@) {
                    lemma_digits_val_take_le(body, i + 1 - start);
                    assert(body.take(i + 1 - start) =~= ext);
                    assert(digits_val(body) >= acc * 10 + d);
                    assert(acc * 10 + d > usize::MAX);
                    assert(false);
                }
            }
            return None;
        }
        proof {
            assert(acc * 10 + d <= usize::MAX);
        }
        acc = acc * 10 + d;
        i += 1;
    }
    proof {
        assert(s@.subrange(start as int, n as int) =~= body);
        assert forall|k: int| 0 <= k < body.len() implies is_digit(#[trigger] body[k]) by {
            assert(body[k] == s@[k + start]);
        }
        assert(valid_len(s@));
    }
    Some(acc)
}

/// Parses a full argument list, the program name at index 0.
///
/// Exactly two forms succeed: `PROGRAM FILE` gives the filename and no
/// byte limit; `PROGRAM -n LEN FILE` gives the filename and the parsed
/// limit.  Any other shape is `InvalidUsage`; the right shape with a bad
/// `LEN` is `InvalidLength`.  Every argument list yields exactly one of
/// those four outcomes.
pub fn parse_args<'a>(args: &'a [String]) -> (r: Result<(&'a str, Option<usize>), ArgError>)
    ensures
        args@.len() == 2 ==> (r matches Ok(p) && p.0@ == args@[1]@ && p.1 is None),
        (args@.len() == 4 && args@[1]@ == seq!['-', 'n'] && valid_len(args@[2]@)) ==> (r matches Ok(
            p,
        ) && p.0@ == args@[3]@ && p.1 == Some(len_value(args@[2]@) as usize)),
        (args@.len() == 4 && args@[1]@ == seq!['-', 'n'] && !valid_len(args@[2]@)) ==> r == Err::<
            (&'a str, Option<usize>),
            ArgError,
        >(ArgError::InvalidLength),
        !(args@.len() == 2 || (args@.len() == 4 && args@[1]@ == seq!['-', 'n'])) ==> r == Err::<
            (&'a str, Option<usize>),
            ArgError,
        >(ArgError::InvalidUsage),
{
    if args.len() == 2 {
        return Ok((args[1].as_str(), None));
    }
    if args.len() != 4 {
        return Err(ArgError::InvalidUsage);
    }
    let flag = args[1].as_str();
    let matched = flag.unicode_len() == 2 && flag.get_char(0) == '-' && flag.get_char(1) == 'n';
    proof {
        if matched {
            assert(flag@ =~= seq!['-', 'n']);
        } else if flag@ == seq!['-', 'n'] {
            assert(flag@.len() == 2);
            assert(flag@[0] == '-');
            assert(flag@[1] == 'n');
            assert(false);
        }
    }
    if !matched {
        return Err(ArgError::InvalidUsage);
    }
    match parse_len(args[2].as_str()) {
        Some(len) => Ok((args[3].as_str(), Some(len))),
        None => Err(ArgError::InvalidLength),
    }
}

} // verus!
