//! User references to a client: by numeric id or by name. The tagged variant
//! is resolved once, at the boundary, into a concrete client id before it
//! reaches the store.

use vstd::prelude::*;

use crate::store::{Store, spec_client_id_by_name};
use crate::wire::spec_digit_of;
use vstd::string::StrSliceExecFns;

verus! {

/// A client as the user names it: by its numeric id, or by its name.
#[derive(Clone, Debug, PartialEq, Eq)]
pub enum UserInput {
    ByName(String),
    ById(i32),
}

/// Every character is a decimal digit.
pub open spec fn all_digits(s: Seq<char>) -> bool {
    forall|i: int| 0 <= i < s.len() ==> spec_digit_of(#[trigger] s[i]) is Some
}

/// The number a string of digits spells.
pub open spec fn digits_num(s: Seq<char>) -> int
    decreases s.len(),
{
    if s.len() == 0 {
        0
    } else {
        digits_num(s.drop_last()) * 10 + spec_digit_of(s.last())->Some_0
    }
}

/// The machine integer a string spells, if any: an optional single sign,
/// then one or more digits, and a value within the 32-bit signed range.
pub open spec fn spec_parse_i32(s: Seq<char>) -> Option<i32> {
    let body = if s.len() > 0 && (s[0] == '-' || s[0] == '+') {
        s.subrange(1, s.len() as int)
    } else {
        s
    };
    let neg = s.len() > 0 && s[0] == '-';
    if body.len() > 0 && all_digits(body) {
        let v = if neg {
            -digits_num(body)
        } else {
            digits_num(body)
        };
        if -0x8000_0000 <= v <= 0x7fff_ffff {
            Some(v as i32)
        } else {
            None
        }
    } else {
        None
    }
}

/// A digit string spells a non-negative number.
proof fn lemma_digits_num_nonneg(s: Seq<char>)
    requires
        all_digits(s),
    ensures
        digits_num(s) >= 0,
    decreases s.len(),
{
    if s.len() > 0 {
        assert(all_digits(s.drop_last())) by {
            assert forall|i: int|
                0 <= i < s.drop_last().len() implies spec_digit_of(
                #[trigger] s.drop_last()[i],
            ) is Some by {
                assert(s.drop_last()[i] == s[i]);
            }
        }
        lemma_digits_num_nonneg(s.drop_last());
        assert(spec_digit_of(s.last())->Some_0 >= 0);
    }
}

/// Once a digit prefix spells a number past a positive bound, the whole
/// string does too.
proof fn lemma_digits_num_monotone(s: Seq<char>, i: int, bound: int)
    requires
        all_digits(s),
        0 <= i <= s.len(),
        bound >= 0,
        digits_num(s.take(i)) > bound,
    ensures
        digits_num(s) > bound,
    decreases s.len() - i,
{
    if i < s.len() {
        assert(s.take(i + 1).drop_last() =~= s.take(i));
        assert(all_digits(s.take(i + 1))) by {
            assert forall|k: int|
                0 <= k < i + 1 implies spec_digit_of(#[trigger] s.take(i + 1)[k]) is Some by {
                assert(s.take(i + 1)[k] == s[k]);
            }
        }
        assert(all_digits(s.take(i))) by {
            assert forall|k: int|
                0 <= k < i implies spec_digit_of(#[trigger] s.take(i)[k]) is Some by {
                assert(s.take(i)[k] == s[k]);
            }
        }
        lemma_digits_num_nonneg(s.take(i));
        assert(s.take(i + 1).last() == s[i]);
        assert(digits_num(s.take(i + 1)) == digits_num(s.take(i)) * 10 + spec_digit_of(
            s[i],
        )->Some_0);
        assert(digits_num(s.take(i + 1)) > bound);
        lemma_digits_num_monotone(s, i + 1, bound);
    } else {
        assert(s.take(i) =~= s);
    }
}

/// Reads a user's client reference: a string that spells a 32-bit integer is
/// an id, any other string is a name. Never fails; the error type only suits
/// the argument-parsing surface.
pub fn parse_input(s: &str) -> (r: Result<UserInput, String>)
    ensures
        match spec_parse_i32(s@) {
            Some(v) => r == Result::<UserInput, String>::Ok(UserInput::ById(v)),
            None => {
                &&& r is Ok
                &&& r->Ok_0 matches UserInput::ByName(n) && n@ == s@
            },
        },
{
    match try_parse_i32(s) {
        Some(v) => Ok(UserInput::ById(v)),
        None => Ok(UserInput::ByName(s.to_owned())),
    }
}

/// The 32-bit integer a string spells, if any.
fn try_parse_i32(s: &str) -> (r: Option<i32>)
    ensures
        r == spec_parse_i32(s@),
{
    let n = s.unicode_len();
    let ghost sv = s@;
    if n == 0 {
        return None;
    }
    let first = s.get_char(0);
    let signed: bool = first == '-' || first == '+';
    let neg: bool = first == '-';
    let start: usize = if signed {
        1
    } else {
        0
    };
    let ghost body = if signed {
        sv.subrange(1, sv.len() as int)
    } else {
        sv
    };
    if n == start {
        return None;
    }
    let mut acc: i64 = 0;
    let mut i: usize = start;
    proof {
        assert(body.take(0) =~= Seq::<char>::empty());
    }
    while i < n
        invariant
            sv == s@,
            n == sv.len(),
            n >= 1,
            signed == (sv[0] == '-' || sv[0] == '+'),
            neg == (sv[0] == '-'),
            start <= i <= n,
            start == if signed {
                1int
            } else {
                0int
            },
            body == if signed {
                sv.subrange(1, sv.len() as int)
            } else {
                sv
            },
            body.len() == n - start,
            all_digits(body.take(i - start)),
            0 <= acc <= 0x8000_0000,
            acc == digits_num(body.take(i - start)),
        decreases n - i,
    {
        let c = s.get_char(i);
        proof {
            assert(body[i - start] == sv[i as int]);
        }
        let d = match crate::wire::char_digit(c) {
            Some(d) => d,
            None => {
                proof {
                    assert(spec_digit_of(body[i - start]) is None);
                    assert(!all_digits(body));
                }
                return None;
            },
        };
        proof {
            assert(spec_digit_of(body[i - start]) == Some(d as int));
            assert(body.take(i + 1 - start).drop_last() =~= body.take(i - start));
            assert(body.take(i + 1 - start).last() == body[i - start]);
            assert forall|k: int|
                0 <= k < i + 1 - start implies spec_digit_of(
                #[trigger] body.take(i + 1 - start)[k],
            ) is Some by {
                assert(body.take(i + 1 - start)[k] == body[k]);
                if k < i - start {
                    assert(body.take(i - start)[k] == body[k]);
                    assert(spec_digit_of(body.take(i - start)[k]) is Some);
                }
            }
        }
        acc = acc * 10 + d as i64;
        i += 1;
        if acc > 0x8000_0000 {
            proof {
                if all_digits(body) {
                    lemma_digits_num_monotone(body, i - start, 0x8000_0000);
                }
            }
            return None;
        }
    }
    proof {
        assert(body.take(n - start) =~= body);
    }
    if neg {
        proof {
            lemma_digits_num_nonneg(body);
        }
        Some((-acc) as i32)
    } else {
        if acc > 0x7fff_ffff {
            return None;
        }
        Some(acc as i32)
    }
}

/// Resolves an optional user reference to a client id: an id passes through
/// unchecked, a name is looked up in the store.
pub fn handle_user_client_input(store: &Store, input: Option<UserInput>) -> (r: Option<i32>)
    requires
        store.wf(),
    ensures
        r == match input {
            Some(UserInput::ById(id)) => Some(id),
            Some(UserInput::ByName(n)) => spec_client_id_by_name(store.clients@, n@),
            None => None::<i32>,
        },
{
    match input {
        Some(UserInput::ById(id)) => Some(id),
        Some(UserInput::ByName(name)) => crate::store::get_client_id_by_name(store, name),
        None => None,
    }
}

} // verus!
