//! Parsing of the cost token of an edge line: a non-empty run of decimal
//! digits whose value fits the machine word.

use vstd::prelude::*;
use vstd::string::StrSliceExecFns;

verus! {

pub open spec fn is_digit(c: char) -> bool {
    '0' <= c && c <= '9'
}

pub open spec fn all_digits(s: Seq<char>) -> bool {
    forall|i: int| 0 <= i < s.len() ==> is_digit(#[trigger] s[i])
}

/// The value of a digit string, most significant digit first.
pub open spec fn digits_value(s: Seq<char>) -> int
    decreases s.len(),
{
    if s.len() == 0 {
        0
    } else {
        digits_value(s.drop_last()) * 10 + (s.last() as int - 48)
    }
}

proof fn lemma_digits_value_nonneg(s: Seq<char>)
    requires
        all_digits(s),
    ensures
        digits_value(s) >= 0,
    decreases s.len(),
{
    if s.len() > 0 {
        assert(all_digits(s.drop_last())) by {
            assert forall|i: int| 0 <= i < s.len() - 1 implies is_digit(#[trigger] s.drop_last()[i])
                by {
                assert(s.drop_last()[i] == s[i]);
            }
        }
        lemma_digits_value_nonneg(s.drop_last());
        assert(s.last() as int >= 48);
    }
}

/// A digit string is worth at least any of its prefixes.
proof fn lemma_digits_value_prefix(s: Seq<char>, i: int)
    requires
        all_digits(s),
        0 <= i <= s.len(),
    ensures
        digits_value(s) >= digits_value(s.subrange(0, i)),
    decreases s.len() - i,
{
    if i == s.len() {
        assert(s.subrange(0, i) =~= s);
    } else {
        lemma_digits_value_prefix(s, i + 1);
        let p1 = s.subrange(0, i + 1);
        let p0 = s.subrange(0, i);
        assert(p1.drop_last() =~= p0);
        assert(all_digits(p0)) by {
            assert forall|j: int| 0 <= j < p0.len() implies is_digit(#[trigger] p0[j]) by {
                assert(p0[j] == s[j]);
            }
        }
        lemma_digits_value_nonneg(p0);
        assert(p1.last() == s[i] && is_digit(s[i]));
        assert(digits_value(p1) == digits_value(p0) * 10 + (s[i] as int - 48));
        assert(digits_value(p1) >= digits_value(p0));
    }
}

/// Parses a cost token: returns its value when the token is a non-empty
/// digit run that fits the machine word, and nothing exactly otherwise.
#[verifier::loop_isolation(false)]
pub fn parse_cost(s: &str) -> (r: Option<usize>)
    ensures
        match r {
            Some(v) => s@.len() >= 1 && all_digits(s@) && digits_value(s@) == v,
            None => s@.len() == 0 || !all_digits(s@) || digits_value(s@) > usize::MAX,
        },
{
    let len = s.unicode_len();
    if len == 0 {
        return None;
    }
    let mut acc: usize = 0;
    let mut i: usize = 0;
    while i < len
        invariant
            i <= len,
            len == s@.len(),
            forall|j: int| 0 <= j < i ==> is_digit(#[trigger] s@[j]),
            acc == digits_value(s@.subrange(0, i as int)),
        decreases len - i,
    {
        let c = s.get_char(i);
        let cv = c as u32;
        if cv < 48 || cv > 57 {
            proof {
                assert(!is_digit(s@[i as int]));
            }
            return None;
        }
        let d = (cv - 48) as usize;
        let ghost pre = s@.subrange(0, i as int);
        let ghost cur = s@.subrange(0, i as int + 1);
        proof {
            assert(cur.drop_last() =~= pre);
            assert(cur.last() == s@[i as int]);
            assert(digits_value(cur) == acc * 10 + d);
        }
        let scaled = match acc.checked_mul(10) {
            Some(x) => x,
            None => {
                proof {
                    lemma_overflow_means_large(s@, i as int + 1, acc * 10 + d);
                }
                return None;
            },
        };
        acc = match scaled.checked_add(d) {
            Some(x) => x,
            None => {
                proof {
                    lemma_overflow_means_large(s@, i as int + 1, acc * 10 + d);
                }
                return None;
            },
        };
        i += 1;
    }
    proof {
        assert(s@.subrange(0, len as int) =~= s@);
    }
    Some(acc)
}

/// When some prefix of the token is already worth more than the machine
/// word holds, so is the whole token (or it is not a digit run at all).
proof fn lemma_overflow_means_large(s: Seq<char>, i: int, prefix_value: int)
    requires
        0 <= i <= s.len(),
        digits_value(s.subrange(0, i)) == prefix_value,
        prefix_value > usize::MAX,
    ensures
        !all_digits(s) || digits_value(s) > usize::MAX,
{
    if all_digits(s) {
        lemma_digits_value_prefix(s, i);
    }
}

/// The end of the token that starts at `from`: the first position at or
/// after `from` holding a space, or the end of the text.
pub open spec fn token_end(s: Seq<char>, from: int) -> int
    recommends
        0 <= from <= s.len(),
    decreases s.len() - from,
{
    if from >= s.len() {
        s.len() as int
    } else if s[from] == ' ' {
        from
    } else {
        token_end(s, from + 1)
    }
}

proof fn lemma_token_end_at(s: Seq<char>, from: int, j: int)
    requires
        0 <= from <= j <= s.len(),
        forall|t: int| from <= t < j ==> s[t] != ' ',
        j == s.len() || s[j] == ' ',
    ensures
        token_end(s, from) == j,
    decreases j - from,
{
    if from < j {
        lemma_token_end_at(s, from + 1, j);
    }
}

/// Splits one edge line into its first three space-separated tokens and
/// parses the third as a cost: returns the source name, the destination
/// name and the cost value when the line has at least three tokens and the
/// third is a digit run that fits the machine word, and nothing exactly
/// otherwise.  Tokens past the third are ignored.
#[verifier::loop_isolation(false)]
pub fn parse_edge_line(line: &str) -> (r: Option<(String, String, usize)>)
    ensures
        ({
            let s = line@;
            let e1 = token_end(s, 0);
            let e2 = token_end(s, e1 + 1);
            let e3 = token_end(s, e2 + 1);
            match r {
                Some(t) => {
                    &&& e1 < s.len()
                    &&& e2 < s.len()
                    &&& t.0@ == s.subrange(0, e1)
                    &&& t.1@ == s.subrange(e1 + 1, e2)
                    &&& s.subrange(e2 + 1, e3).len() >= 1
                    &&& all_digits(s.subrange(e2 + 1, e3))
                    &&& digits_value(s.subrange(e2 + 1, e3)) == t.2
                },
                None => e1 == s.len() || e2 == s.len() || s.subrange(e2 + 1, e3).len() == 0
                    || !all_digits(s.subrange(e2 + 1, e3)) || digits_value(
                    s.subrange(e2 + 1, e3),
                ) > usize::MAX,
            }
        }),
{
    proof {
        assert(' ' as u32 == 32);
    }
    let len = line.unicode_len();
    let mut e1: usize = 0;
    while e1 < len && (line.get_char(e1) as u32) != 32
        invariant
            e1 <= len,
            forall|t: int| 0 <= t < e1 ==> line@[t] != ' ',
        decreases len - e1,
    {
        e1 += 1;
    }
    proof {
        lemma_token_end_at(line@, 0, e1 as int);
    }
    if e1 == len {
        return None;
    }
    let mut e2: usize = e1 + 1;
    while e2 < len && (line.get_char(e2) as u32) != 32
        invariant
            e1 + 1 <= e2 <= len,
            forall|t: int| e1 + 1 <= t < e2 ==> line@[t] != ' ',
        decreases len - e2,
    {
        e2 += 1;
    }
    proof {
        lemma_token_end_at(line@, e1 as int + 1, e2 as int);
    }
    if e2 == len {
        return None;
    }
    let mut e3: usize = e2 + 1;
    while e3 < len && (line.get_char(e3) as u32) != 32
        invariant
            e2 + 1 <= e3 <= len,
            forall|t: int| e2 + 1 <= t < e3 ==> line@[t] != ' ',
        decreases len - e3,
    {
        e3 += 1;
    }
    proof {
        lemma_token_end_at(line@, e2 as int + 1, e3 as int);
    }
    let src = line.substring_char(0, e1).to_owned();
    let dest = line.substring_char(e1 + 1, e2).to_owned();
    let cost_token = line.substring_char(e2 + 1, e3);
    match parse_cost(cost_token) {
        Some(cost) => Some((src, dest, cost)),
        None => None,
    }
}

} // verus!
