//! The budget ledger: a monotonic counter of automated actions, bounded by a
//! configured maximum and persisted across sessions as a decimal string.
use vstd::prelude::*;

verus! {

use vstd::string::StrSliceExecFns;
use vstd::string::StringExecFns;

/// Whether `c` is a decimal digit.
pub open spec fn is_digit(c: char) -> bool {
    48 <= c as u32 && c as u32 <= 57
}

/// The numeric value of a decimal digit character.
pub open spec fn digit_val(c: char) -> nat
    recommends
        is_digit(c),
{
    (c as u32 - 48) as nat
}

/// The digit character for a value below ten.
pub open spec fn digit_char(d: nat) -> char
    recommends
        d < 10,
{
    if d == 0 {
        '0'
    } else if d == 1 {
        '1'
    } else if d == 2 {
        '2'
    } else if d == 3 {
        '3'
    } else if d == 4 {
        '4'
    } else if d == 5 {
        '5'
    } else if d == 6 {
        '6'
    } else if d == 7 {
        '7'
    } else if d == 8 {
        '8'
    } else {
        '9'
    }
}

/// Whether every character of `s` is a decimal digit.
pub open spec fn all_digits(s: Seq<char>) -> bool {
    forall|i: int| 0 <= i < s.len() ==> is_digit(#[trigger] s[i])
}

/// The number denoted by a digit string, most significant digit first.
pub open spec fn dec_value(s: Seq<char>) -> nat
    recommends
        all_digits(s),
    decreases s.len(),
{
    if s.len() == 0 {
        0
    } else {
        dec_value(s.drop_last()) * 10 + digit_val(s.last())
    }
}

/// Whether a stored string is a well-formed count: nonempty, all digits, and
/// within the range of `usize`.
pub open spec fn parses_as_count(s: Seq<char>) -> bool {
    &&& s.len() > 0
    &&& all_digits(s)
    &&& dec_value(s) <= usize::MAX
}

/// The count recovered from a persisted value: a missing or unparsable
/// value is zero, never an error.
pub open spec fn stored_count(stored: Option<Seq<char>>) -> nat {
    match stored {
        Option::None => 0,
        Option::Some(s) => if parses_as_count(s) {
            dec_value(s)
        } else {
            0
        },
    }
}

/// The canonical decimal representation of `n`, without sign or leading
/// zeros (except for `n == 0` itself).
pub open spec fn dec_repr(n: nat) -> Seq<char>
    decreases n,
{
    if n < 10 {
        seq![digit_char(n)]
    } else {
        dec_repr(n / 10).push(digit_char(n % 10))
    }
}

/// The ledger count after `n` further consume attempts from state
/// `(count, max)`: each attempt increments the count exactly when it is
/// still below `max`.
pub open spec fn count_after(count: nat, max: nat, n: nat) -> nat
    decreases n,
{
    if n == 0 {
        count
    } else {
        let c = count_after(count, max, (n - 1) as nat);
        if c < max {
            c + 1
        } else {
            c
        }
    }
}

/// How many of `n` consume attempts from state `(count, max)` are accepted.
pub open spec fn accepted_after(count: nat, max: nat, n: nat) -> nat
    decreases n,
{
    if n == 0 {
        0
    } else {
        accepted_after(count, max, (n - 1) as nat) + if count_after(
            count,
            max,
            (n - 1) as nat,
        ) < max {
            1nat
        } else {
            0nat
        }
    }
}

/// After any sequence of consume attempts, the count equals the initial
/// count plus the number of accepted attempts; and a count that starts
/// within the maximum never exceeds it.
pub proof fn lemma_consume_counts(count: nat, max: nat, n: nat)
    ensures
        count_after(count, max, n) == count + accepted_after(count, max, n),
        count <= max ==> count_after(count, max, n) <= max,
    decreases n,
{
    if n > 0 {
        lemma_consume_counts(count, max, (n - 1) as nat);
    }
}

/// A monotonic counter of consumed quota bounded by a configured ceiling.
/// `count` is the quota consumed so far; `max` is immutable after
/// construction. An action is accepted only while `count < max`, and
/// acceptance increments `count` by exactly one.
pub struct BudgetLedger {
    /// The quota consumed so far.
    pub count: usize,
    /// The configured ceiling on automated actions.
    pub max: usize,
}

impl BudgetLedger {
    /// The quota still available: `max - count`, saturating at zero for a
    /// persisted count that already exceeds the configured ceiling.
    pub open spec fn spec_remaining(self) -> nat {
        if self.count < self.max {
            (self.max - self.count) as nat
        } else {
            0
        }
    }

    /// Builds a ledger from the value read out of the persistent store.
    /// A missing or unparsable stored value yields a count of zero.
    pub fn load(stored: Option<String>, max: usize) -> (ledger: BudgetLedger)
        ensures
            ledger.count as nat == stored_count(
                match stored {
                    Option::None => Option::<Seq<char>>::None,
                    Option::Some(s) => Option::Some(s@),
                },
            ),
            ledger.max == max,
    {
        let count: usize = match stored {
            Option::None => 0,
            Option::Some(s) => match parse_count(s.as_str()) {
                Option::Some(v) => v,
                Option::None => 0,
            },
        };
        BudgetLedger { count, max }
    }

    /// Consumes one unit of quota if any is available. Accepted exactly when
    /// `count < max` on entry; acceptance increments the count by one, and a
    /// refused attempt leaves the ledger unchanged.
    pub fn try_consume(&mut self) -> (accepted: bool)
        ensures
            accepted == (old(self).count < old(self).max),
            final(self).max == old(self).max,
            accepted ==> final(self).count == old(self).count + 1,
            !accepted ==> final(self).count == old(self).count,
            final(self).count as nat == count_after(
                old(self).count as nat,
                old(self).max as nat,
                1,
            ),
    {
        proof {
            reveal_with_fuel(count_after, 2);
        }
        if self.count < self.max {
            self.count = self.count + 1;
            true
        } else {
            false
        }
    }

    /// The quota still available; zero exactly when no further attempt
    /// would be accepted.
    pub fn remaining(&self) -> (r: usize)
        ensures
            r as nat == self.spec_remaining(),
            r == 0 <==> self.count >= self.max,
    {
        if self.count < self.max {
            self.max - self.count
        } else {
            0
        }
    }

    /// The decimal string under which the current count is persisted.
    pub fn persist_repr(&self) -> (r: String)
        ensures
            r@ == dec_repr(self.count as nat),
    {
        to_decimal(self.count)
    }
}

/// The value of a digit string never falls below the value of any of its
/// prefixes.
proof fn lemma_dec_value_prefix_le(s: Seq<char>, i: int)
    requires
        0 <= i <= s.len(),
    ensures
        dec_value(s.take(i)) <= dec_value(s),
    decreases s.len(),
{
    if i < s.len() {
        assert(s.take(i) =~= s.drop_last().take(i));
        lemma_dec_value_prefix_le(s.drop_last(), i);
    } else {
        assert(s.take(i) =~= s);
    }
}

/// Parses a nonempty all-digit string into a count; `None` for the empty
/// string, a non-digit character, or a value that overflows `usize`.
fn parse_count(s: &str) -> (r: Option<usize>)
    ensures
        parses_as_count(s@) ==> r == Option::Some((dec_value(s@) as usize)),
        !parses_as_count(s@) ==> r is None,
{
    let n = s.unicode_len();
    if n == 0 {
        return Option::None;
    }
    let mut acc: u128 = 0;
    let mut i: usize = 0;
    while i < n
        invariant
            0 <= i <= n,
            n == s@.len(),
            all_digits(s@.take(i as int)),
            acc == dec_value(s@.take(i as int)),
            acc <= usize::MAX,
        decreases n - i,
    {
        let c = s.get_char(i);
        let u = c as u32;
        if u < 48 || u > 57 {
            assert(!is_digit(s@[i as int]));
            return Option::None;
        }
        let d: u128 = (u - 48) as u128;
        let next: u128 = acc * 10 + d;
        proof {
            assert(s@.take(i + 1).drop_last() =~= s@.take(i as int));
            assert(s@.take(i + 1).last() == s@[i as int]);
        }
        if next > usize::MAX as u128 {
            proof {
                lemma_dec_value_prefix_le(s@, i + 1);
            }
            assert(!parses_as_count(s@));
            return Option::None;
        }
        acc = next;
        i = i + 1;
    }
    assert(s@.take(n as int) =~= s@);
    Option::Some(acc as usize)
}

/// The string slice holding a single digit character.
fn digit_str(d: usize) -> (r: &'static str)
    requires
        d < 10,
    ensures
        r@ =~= seq![digit_char(d as nat)],
{
    proof {
        reveal_strlit("0");
        reveal_strlit("1");
        reveal_strlit("2");
        reveal_strlit("3");
        reveal_strlit("4");
        reveal_strlit("5");
        reveal_strlit("6");
        reveal_strlit("7");
        reveal_strlit("8");
        reveal_strlit("9");
    }
    match d {
        0 => "0",
        1 => "1",
        2 => "2",
        3 => "3",
        4 => "4",
        5 => "5",
        6 => "6",
        7 => "7",
        8 => "8",
        _ => "9",
    }
}

/// Renders `n` in decimal, matching `dec_repr`.
fn to_decimal(n: usize) -> (r: String)
    ensures
        r@ == dec_repr(n as nat),
    decreases n,
{
    if n < 10 {
        digit_str(n).to_owned()
    } else {
        let mut s = to_decimal(n / 10);
        s.append(digit_str(n % 10));
        proof {
            assert(dec_repr((n / 10) as nat).push(digit_char((n % 10) as nat)) =~= dec_repr(
                (n / 10) as nat,
            ) + seq![digit_char((n % 10) as nat)]);
        }
        s
    }
}

/// `dec_repr` produces exactly the strings that `parse_count` accepts, and
/// parsing a rendered count recovers it: the persisted form of a ledger
/// round-trips through the store.
pub proof fn lemma_dec_repr_round_trip(n: nat)
    ensures
        dec_repr(n).len() > 0,
        all_digits(dec_repr(n)),
        dec_value(dec_repr(n)) == n,
        n <= usize::MAX ==> parses_as_count(dec_repr(n)),
    decreases n,
{
    if n < 10 {
        let s = seq![digit_char(n)];
        assert(dec_repr(n) =~= s);
        assert(s.drop_last() =~= Seq::<char>::empty());
        assert(dec_value(Seq::<char>::empty()) == 0);
        assert(s.last() == digit_char(n));
        assert(dec_value(dec_repr(n)) == n);
    } else {
        lemma_dec_repr_round_trip(n / 10);
        let s = dec_repr(n);
        assert(s =~= dec_repr(n / 10).push(digit_char(n % 10)));
        assert(s.drop_last() =~= dec_repr(n / 10));
        assert(dec_value(s) == (n / 10) * 10 + n % 10);
        assert((n / 10) * 10 + n % 10 == n) by (nonlinear_arith);
    }
}

} // verus!
