//! Reading rows of whitespace-separated decimal integers.

use vstd::prelude::*;
use vstd::string::StrSliceExecFns;
use crate::error::BingoError;

verus! {

/// `c` is a decimal digit.
pub open spec fn is_digit(c: char) -> bool {
    48 <= c as int <= 57
}

/// Numeric value of the digit `c`.
pub open spec fn digit_val(c: char) -> int {
    c as int - 48
}

/// Value of a digit string read in base ten.
pub open spec fn dec_val(t: Seq<char>) -> int
    decreases t.len(),
{
    if t.len() == 0 {
        0
    } else {
        10 * dec_val(t.drop_last()) + digit_val(t.last())
    }
}

pub open spec fn all_digits(t: Seq<char>) -> bool {
    forall|i: int| 0 <= i < t.len() ==> is_digit(t[i])
}

/// A token that reads as a `u32`: nonempty, all digits, value in range.
pub open spec fn is_u32_token(t: Seq<char>) -> bool {
    t.len() > 0 && all_digits(t) && dec_val(t) <= u32::MAX
}

/// The space-separated tokens of `s`, with `cur` the token read so far:
/// a space ends the current token (an empty one is dropped), any other
/// character extends it.
pub open spec fn tokens_from(s: Seq<char>, cur: Seq<char>) -> Seq<Seq<char>>
    decreases s.len(),
{
    if s.len() == 0 {
        if cur.len() == 0 {
            Seq::empty()
        } else {
            seq![cur]
        }
    } else if s[0] == ' ' {
        if cur.len() == 0 {
            tokens_from(s.drop_first(), Seq::empty())
        } else {
            seq![cur] + tokens_from(s.drop_first(), Seq::empty())
        }
    } else {
        tokens_from(s.drop_first(), cur.push(s[0]))
    }
}

/// The space-separated tokens of a row.
pub open spec fn row_tokens(s: Seq<char>) -> Seq<Seq<char>> {
    tokens_from(s, Seq::empty())
}

/// Every token of the row reads as a `u32`.
pub open spec fn row_valid(s: Seq<char>) -> bool {
    forall|i: int| 0 <= i < row_tokens(s).len() ==> is_u32_token(#[trigger] row_tokens(s)[i])
}

/// The values of the row's tokens, in order.
pub open spec fn row_values(s: Seq<char>) -> Seq<u32> {
    row_tokens(s).map_values(|t: Seq<char>| (dec_val(t) as u32))
}

pub proof fn lemma_dec_val_nonneg(t: Seq<char>)
    requires
        all_digits(t),
    ensures
        dec_val(t) >= 0,
    decreases t.len(),
{
    if t.len() > 0 {
        lemma_dec_val_nonneg(t.drop_last());
    }
}

/// Reading more digits can only grow the value.
pub(crate) proof fn lemma_dec_val_prefix_le(t: Seq<char>, i: int)
    requires
        all_digits(t),
        0 <= i <= t.len(),
    ensures
        dec_val(t.take(i)) <= dec_val(t),
    decreases t.len() - i,
{
    if i == t.len() {
        assert(t.take(i) =~= t);
    } else {
        assert(t.take(i + 1).drop_last() =~= t.take(i));
        lemma_dec_val_nonneg(t.take(i));
        lemma_dec_val_prefix_le(t, i + 1);
    }
}

/// Read one token as a `u32`.
fn parse_u32_token(t: &Vec<char>) -> (r: Option<u32>)
    ensures
        r is Some <==> is_u32_token(t@),
        r is Some ==> r.unwrap() as int == dec_val(t@),
{
    if t.len() == 0 {
        return None;
    }
    let mut val: u64 = 0;
    let mut i: usize = 0;
    while i < t.len()
        invariant
            i <= t@.len(),
            all_digits(t@.take(i as int)),
            val as int == dec_val(t@.take(i as int)),
            val <= 0xffff_ffff,
        decreases t@.len() - i,
    {
        let c = t[i];
        let d: u64 = match c {
            '0' => 0,
            '1' => 1,
            '2' => 2,
            '3' => 3,
            '4' => 4,
            '5' => 5,
            '6' => 6,
            '7' => 7,
            '8' => 8,
            '9' => 9,
            _ => {
                assert(!is_digit(t@[i as int]));
                return None;
            },
        };
        proof {
            assert(c == t@[i as int]);
            assert(is_digit(c) && digit_val(c) == d as int);
            assert(t@.take(i as int + 1).last() == c);
            assert(t@.take(i as int + 1).drop_last() =~= t@.take(i as int));
            assert(all_digits(t@.take(i as int + 1)));
        }
        val = val * 10 + d;
        proof {
            assert(val as int == 10 * dec_val(t@.take(i as int)) + digit_val(c));
            assert(val as int == dec_val(t@.take(i as int + 1)));
        }
        if val > 0xffff_ffff {
            proof {
                if all_digits(t@) {
                    lemma_dec_val_prefix_le(t@, i as int + 1);
                }
            }
            return None;
        }
        i = i + 1;
    }
    proof {
        assert(t@.take(t@.len() as int) =~= t@);
    }
    Some(val as u32)
}

/// Read one row of space-separated integers; any token that is not a
/// `u32` makes the whole row invalid.
pub fn parse_row(s: &str) -> (r: Result<Vec<u32>, BingoError>)
    ensures
        r is Ok <==> row_valid(s@),
        r is Ok ==> r.unwrap()@ == row_values(s@),
        r is Err ==> r.unwrap_err() == BingoError::ParseError,
{
    let n = s.unicode_len();
    let mut vals: Vec<u32> = Vec::new();
    let mut cur: Vec<char> = Vec::new();
    let ghost mut done: Seq<Seq<char>> = Seq::empty();
    let mut i: usize = 0;
    proof {
        assert(s@.skip(0) =~= s@);
        assert(row_tokens(s@) =~= Seq::<Seq<char>>::empty() + tokens_from(
            s@.skip(0),
            Seq::<char>::empty(),
        ));
    }
    while i < n
        invariant
            n == s@.len(),
            i <= n,
            row_tokens(s@) == done + tokens_from(s@.skip(i as int), cur@),
            done.len() == vals@.len(),
            forall|k: int| 0 <= k < done.len() ==> is_u32_token(#[trigger] done[k]),
            forall|k: int| 0 <= k < done.len() ==> vals@[k] as int == dec_val(#[trigger] done[k]),
        decreases n - i,
    {
        let c = s.get_char(i);
        proof {
            assert(s@.skip(i as int).drop_first() =~= s@.skip(i as int + 1));
        }
        if c == ' ' {
            if cur.len() > 0 {
                match parse_u32_token(&cur) {
                    Some(v) => {
                        vals.push(v);
                        proof {
                            done = done.push(cur@);
                            assert(row_tokens(s@) =~= done + tokens_from(
                                s@.skip(i as int + 1),
                                Seq::<char>::empty(),
                            ));
                        }
                        cur.clear();
                    },
                    None => {
                        proof {
                            assert(row_tokens(s@)[done.len() as int] == cur@);
                        }
                        return Err(BingoError::ParseError);
                    },
                }
            } else {
                proof {
                    assert(cur@ =~= Seq::<char>::empty());
                }
            }
        } else {
            cur.push(c);
        }
        i = i + 1;
    }
    proof {
        assert(s@.skip(n as int) =~= Seq::<char>::empty());
    }
    if cur.len() > 0 {
        match parse_u32_token(&cur) {
            Some(v) => {
                vals.push(v);
                proof {
                    done = done.push(cur@);
                }
            },
            None => {
                proof {
                    assert(row_tokens(s@)[done.len() as int] == cur@);
                }
                return Err(BingoError::ParseError);
            },
        }
    }
    proof {
        assert(row_tokens(s@) =~= done);
        assert forall|k: int| 0 <= k < done.len() implies vals@[k] == row_values(s@)[k] by {
            lemma_dec_val_nonneg(done[k]);
        }
        assert(vals@ =~= row_values(s@));
    }
    Ok(vals)
}

} // verus!
