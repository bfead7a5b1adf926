//! The wire encoding: snapshots, actions and join replies as compact
//! JSON-shaped byte strings.
//!
//! The encoder is canonical (fields in a fixed order, no whitespace); the
//! parser is tolerant as the protocol demands: record fields may come in any
//! order, unknown fields are skipped, and a missing required field fails the
//! parse. Decoding an encoded value gives the value back.

use vstd::prelude::*;

use crate::event::{Action, JoinResponse, PlayerAction};
use crate::state::{Player, State};

verus! {

/// An ASCII decimal digit.
pub open spec fn is_digit(b: u8) -> bool {
    48 <= b <= 57
}

/// Powers of ten, for relating digit strings to values.
pub open spec fn pow10(k: nat) -> nat
    decreases k,
{
    if k == 0 {
        1
    } else {
        10 * pow10((k - 1) as nat)
    }
}

/// The decimal digits of `n`, most significant first.
pub open spec fn dec_digits(n: nat) -> Seq<u8>
    decreases n,
{
    if n < 10 {
        seq![(48 + n) as u8]
    } else {
        dec_digits(n / 10).push((48 + n % 10) as u8)
    }
}

/// Decimal digit strings hold only digits.
pub proof fn lemma_dec_digits_shape(n: nat)
    ensures
        dec_digits(n).len() >= 1,
        forall|i: int| 0 <= i < dec_digits(n).len() ==> is_digit(#[trigger] dec_digits(n)[i]),
    decreases n,
{
    if n >= 10 {
        lemma_dec_digits_shape(n / 10);
    }
}

/// Append the decimal digits of `n` to `out`.
pub fn push_decimal(out: &mut Vec<u8>, n: u128)
    ensures
        final(out)@ == old(out)@ + dec_digits(n as nat),
    decreases n,
{
    if n < 10 {
        out.push(48 + n as u8);
        assert(final(out)@ =~= old(out)@ + dec_digits(n as nat));
    } else {
        push_decimal(out, n / 10);
        out.push(48 + (n % 10) as u8);
        assert(final(out)@ =~= old(out)@ + dec_digits(n as nat));
    }
}

/// Consume a run of decimal digits starting at `i`, folding them onto the
/// accumulator `acc`; `None` on overflow of a `u128`.
pub open spec fn parse_digits_loop(s: Seq<u8>, i: int, acc: u128) -> Option<(u128, int)>
    decreases s.len() - i,
{
    if 0 <= i < s.len() && is_digit(s[i]) {
        let d = (s[i] - 48) as u128;
        if acc as nat * 10 + d as nat > u128::MAX as nat {
            None
        } else {
            parse_digits_loop(s, i + 1, (acc * 10 + d) as u128)
        }
    } else {
        Some((acc, i))
    }
}

/// Parse an unsigned decimal number at `i`: at least one digit, `None` on
/// overflow.
pub open spec fn parse_u128_at(s: Seq<u8>, i: int) -> Option<(u128, int)> {
    if 0 <= i < s.len() && is_digit(s[i]) {
        parse_digits_loop(s, i, 0)
    } else {
        None
    }
}

/// Folding the digit block of `n` onto an accumulator shifts the accumulator
/// past the block and adds `n`.
proof fn lemma_parse_digit_block(s: Seq<u8>, i: int, n: nat, acc: u128)
    requires
        0 <= i,
        i + dec_digits(n).len() <= s.len(),
        forall|k: int| 0 <= k < dec_digits(n).len() ==> s[i + k] == dec_digits(n)[k],
        acc as nat * pow10(dec_digits(n).len() as nat) + n <= u128::MAX as nat,
    ensures
        parse_digits_loop(s, i, acc) == parse_digits_loop(
            s,
            i + dec_digits(n).len(),
            (acc as nat * pow10(dec_digits(n).len() as nat) + n) as u128,
        ),
    decreases n,
{
    lemma_dec_digits_shape(n);
    if n < 10 {
        assert(s[i] == dec_digits(n)[0]);
        assert(s[i] == (48 + n) as u8);
        assert(is_digit(s[i]));
        assert(pow10(0) == 1);
        assert(pow10(1) == 10);
        assert(acc as nat * 10 + n <= u128::MAX as nat);
        assert((s[i] - 48) as u128 == n as u128);
    } else {
        let hi = dec_digits(n / 10);
        let k1 = hi.len() as int;
        lemma_dec_digits_shape(n / 10);
        assert(dec_digits(n) =~= hi.push((48 + n % 10) as u8));
        assert forall|k: int| 0 <= k < k1 implies s[i + k] == hi[k] by {
            assert(s[i + k] == dec_digits(n)[k]);
        }
        // bound for the high block
        let p1 = pow10(k1 as nat);
        lemma_pow10_pos(k1 as nat);
        assert(pow10(dec_digits(n).len() as nat) == 10 * p1);
        assert(n == 10 * (n / 10) + n % 10) by {
            vstd::arithmetic::div_mod::lemma_fundamental_div_mod(n as int, 10);
        }
        assert(acc as nat * (10 * p1) + n >= acc as nat * p1 + n / 10) by (nonlinear_arith)
            requires
                p1 >= 1,
                n >= 0,
                acc as nat >= 0,
                n == 10 * (n / 10) + n % 10,
                0 <= n % 10 < 10,
        ;
        lemma_parse_digit_block(s, i, n / 10, acc);
        let acc1 = (acc as nat * p1 + n / 10) as u128;
        // one more digit: the low digit of n
        assert(s[i + k1] == dec_digits(n)[k1]);
        assert(s[i + k1] == (48 + n % 10) as u8);
        assert(is_digit(s[i + k1]));
        assert((s[i + k1] - 48) as u128 == (n % 10) as u128);
        assert(acc1 as nat * 10 + n % 10 == acc as nat * (10 * p1) + n) by (nonlinear_arith)
            requires
                acc1 as nat == acc as nat * p1 + n / 10,
                n == 10 * (n / 10) + n % 10,
        ;
        assert(parse_digits_loop(s, i + k1, acc1) == parse_digits_loop(
            s,
            i + k1 + 1,
            (acc1 * 10 + (n % 10) as u128) as u128,
        ));
    }
}

/// Powers of ten are positive.
proof fn lemma_pow10_pos(k: nat)
    ensures
        pow10(k) >= 1,
    decreases k,
{
    if k > 0 {
        lemma_pow10_pos((k - 1) as nat);
    }
}

/// Parsing the decimal encoding of `n`, followed by anything but a digit,
/// yields exactly `n` and stops after its digits.
pub proof fn lemma_parse_decimal(s: Seq<u8>, i: int, n: u128)
    requires
        0 <= i,
        i + dec_digits(n as nat).len() <= s.len(),
        forall|k: int| 0 <= k < dec_digits(n as nat).len() ==> s[i + k] == dec_digits(n as nat)[k],
        i + dec_digits(n as nat).len() == s.len() || !is_digit(s[i + dec_digits(n as nat).len()]),
    ensures
        parse_u128_at(s, i) == Some((n, i + dec_digits(n as nat).len())),
{
    lemma_dec_digits_shape(n as nat);
    assert(s[i] == dec_digits(n as nat)[0]);
    assert(is_digit(s[i]));
    assert(pow10(dec_digits(n as nat).len() as nat) >= 1) by {
        lemma_pow10_pos(dec_digits(n as nat).len() as nat);
    }
    lemma_parse_digit_block(s, i, n as nat, 0);
    let j = i + dec_digits(n as nat).len();
    assert(parse_digits_loop(s, j, n) == Some((n, j)));
}

/// The keyword `kw` stands in `s` at position `i`.
pub open spec fn kw_at(s: Seq<u8>, i: int, kw: Seq<u8>) -> bool {
    0 <= i && i + kw.len() <= s.len() && s.subrange(i, i + kw.len()) == kw
}

/// The bytes of the field key `"players":`.
pub open spec fn key_players() -> Seq<u8> {
    seq![34u8, 112u8, 108u8, 97u8, 121u8, 101u8, 114u8, 115u8, 34u8, 58u8]
}

/// Whether the field key `"players":` stands at `i`.
fn at_key_players(s: &Vec<u8>, i: usize) -> (r: bool)
    ensures
        r == kw_at(s@, i as int, key_players()),
{
    if i > s.len() || s.len() - i < 10 {
        return false;
    }
    if s[i + 0] != 34u8 {
        proof {
            assert(s@.subrange(i as int, i as int + 10) != key_players()) by {
                assert(s@.subrange(i as int, i as int + 10)[0] == s@[i as int + 0]);
            }
        }
        return false;
    }
    if s[i + 1] != 112u8 {
        proof {
            assert(s@.subrange(i as int, i as int + 10) != key_players()) by {
                assert(s@.subrange(i as int, i as int + 10)[1] == s@[i as int + 1]);
            }
        }
        return false;
    }
    if s[i + 2] != 108u8 {
        proof {
            assert(s@.subrange(i as int, i as int + 10) != key_players()) by {
                assert(s@.subrange(i as int, i as int + 10)[2] == s@[i as int + 2]);
            }
        }
        return false;
    }
    if s[i + 3] != 97u8 {
        proof {
            assert(s@.subrange(i as int, i as int + 10) != key_players()) by {
                assert(s@.subrange(i as int, i as int + 10)[3] == s@[i as int + 3]);
            }
        }
        return false;
    }
    if s[i + 4] != 121u8 {
        proof {
            assert(s@.subrange(i as int, i as int + 10) != key_players()) by {
                assert(s@.subrange(i as int, i as int + 10)[4] == s@[i as int + 4]);
            }
        }
        return false;
    }
    if s[i + 5] != 101u8 {
        proof {
            assert(s@.subrange(i as int, i as int + 10) != key_players()) by {
                assert(s@.subrange(i as int, i as int + 10)[5] == s@[i as int + 5]);
            }
        }
        return false;
    }
    if s[i + 6] != 114u8 {
        proof {
            assert(s@.subrange(i as int, i as int + 10) != key_players()) by {
                assert(s@.subrange(i as int, i as int + 10)[6] == s@[i as int + 6]);
            }
        }
        return false;
    }
    if s[i + 7] != 115u8 {
        proof {
            assert(s@.subrange(i as int, i as int + 10) != key_players()) by {
                assert(s@.subrange(i as int, i as int + 10)[7] == s@[i as int + 7]);
            }
        }
        return false;
    }
    if s[i + 8] != 34u8 {
        proof {
            assert(s@.subrange(i as int, i as int + 10) != key_players()) by {
                assert(s@.subrange(i as int, i as int + 10)[8] == s@[i as int + 8]);
            }
        }
        return false;
    }
    if s[i + 9] != 58u8 {
        proof {
            assert(s@.subrange(i as int, i as int + 10) != key_players()) by {
                assert(s@.subrange(i as int, i as int + 10)[9] == s@[i as int + 9]);
            }
        }
        return false;
    }
    proof {
        assert(s@.subrange(i as int, i as int + 10) =~= key_players());
    }
    true
}

/// Append the field key `"players":`.
fn push_key_players(out: &mut Vec<u8>)
    ensures
        final(out)@ == old(out)@ + key_players(),
{
    out.push(34u8);
    out.push(112u8);
    out.push(108u8);
    out.push(97u8);
    out.push(121u8);
    out.push(101u8);
    out.push(114u8);
    out.push(115u8);
    out.push(34u8);
    out.push(58u8);
    proof {
        assert(final(out)@ =~= old(out)@ + key_players());
    }
}

/// The bytes of the field key `"timestamp":`.
pub open spec fn key_timestamp() -> Seq<u8> {
    seq![34u8, 116u8, 105u8, 109u8, 101u8, 115u8, 116u8, 97u8, 109u8, 112u8, 34u8, 58u8]
}

/// Whether the field key `"timestamp":` stands at `i`.
fn at_key_timestamp(s: &Vec<u8>, i: usize) -> (r: bool)
    ensures
        r == kw_at(s@, i as int, key_timestamp()),
{
    if i > s.len() || s.len() - i < 12 {
        return false;
    }
    if s[i + 0] != 34u8 {
        proof {
            assert(s@.subrange(i as int, i as int + 12) != key_timestamp()) by {
                assert(s@.subrange(i as int, i as int + 12)[0] == s@[i as int + 0]);
            }
        }
        return false;
    }
    if s[i + 1] != 116u8 {
        proof {
            assert(s@.subrange(i as int, i as int + 12) != key_timestamp()) by {
                assert(s@.subrange(i as int, i as int + 12)[1] == s@[i as int + 1]);
            }
        }
        return false;
    }
    if s[i + 2] != 105u8 {
        proof {
            assert(s@.subrange(i as int, i as int + 12) != key_timestamp()) by {
                assert(s@.subrange(i as int, i as int + 12)[2] == s@[i as int + 2]);
            }
        }
        return false;
    }
    if s[i + 3] != 109u8 {
        proof {
            assert(s@.subrange(i as int, i as int + 12) != key_timestamp()) by {
                assert(s@.subrange(i as int, i as int + 12)[3] == s@[i as int + 3]);
            }
        }
        return false;
    }
    if s[i + 4] != 101u8 {
        proof {
            assert(s@.subrange(i as int, i as int + 12) != key_timestamp()) by {
                assert(s@.subrange(i as int, i as int + 12)[4] == s@[i as int + 4]);
            }
        }
        return false;
    }
    if s[i + 5] != 115u8 {
        proof {
            assert(s@.subrange(i as int, i as int + 12) != key_timestamp()) by {
                assert(s@.subrange(i as int, i as int + 12)[5] == s@[i as int + 5]);
            }
        }
        return false;
    }
    if s[i + 6] != 116u8 {
        proof {
            assert(s@.subrange(i as int, i as int + 12) != key_timestamp()) by {
                assert(s@.subrange(i as int, i as int + 12)[6] == s@[i as int + 6]);
            }
        }
        return false;
    }
    if s[i + 7] != 97u8 {
        proof {
            assert(s@.subrange(i as int, i as int + 12) != key_timestamp()) by {
                assert(s@.subrange(i as int, i as int + 12)[7] == s@[i as int + 7]);
            }
        }
        return false;
    }
    if s[i + 8] != 109u8 {
        proof {
            assert(s@.subrange(i as int, i as int + 12) != key_timestamp()) by {
                assert(s@.subrange(i as int, i as int + 12)[8] == s@[i as int + 8]);
            }
        }
        return false;
    }
    if s[i + 9] != 112u8 {
        proof {
            assert(s@.subrange(i as int, i as int + 12) != key_timestamp()) by {
                assert(s@.subrange(i as int, i as int + 12)[9] == s@[i as int + 9]);
            }
        }
        return false;
    }
    if s[i + 10] != 34u8 {
        proof {
            assert(s@.subrange(i as int, i as int + 12) != key_timestamp()) by {
                assert(s@.subrange(i as int, i as int + 12)[10] == s@[i as int + 10]);
            }
        }
        return false;
    }
    if s[i + 11] != 58u8 {
        proof {
            assert(s@.subrange(i as int, i as int + 12) != key_timestamp()) by {
                assert(s@.subrange(i as int, i as int + 12)[11] == s@[i as int + 11]);
            }
        }
        return false;
    }
    proof {
        assert(s@.subrange(i as int, i as int + 12) =~= key_timestamp());
    }
    true
}

/// Append the field key `"timestamp":`.
fn push_key_timestamp(out: &mut Vec<u8>)
    ensures
        final(out)@ == old(out)@ + key_timestamp(),
{
    out.push(34u8);
    out.push(116u8);
    out.push(105u8);
    out.push(109u8);
    out.push(101u8);
    out.push(115u8);
    out.push(116u8);
    out.push(97u8);
    out.push(109u8);
    out.push(112u8);
    out.push(34u8);
    out.push(58u8);
    proof {
        assert(final(out)@ =~= old(out)@ + key_timestamp());
    }
}

/// The bytes of the field key `"acknowledged":`.
pub open spec fn key_acknowledged() -> Seq<u8> {
    seq![34u8, 97u8, 99u8, 107u8, 110u8, 111u8, 119u8, 108u8, 101u8, 100u8, 103u8, 101u8, 100u8, 34u8, 58u8]
}

/// Whether the field key `"acknowledged":` stands at `i`.
fn at_key_acknowledged(s: &Vec<u8>, i: usize) -> (r: bool)
    ensures
        r == kw_at(s@, i as int, key_acknowledged()),
{
    if i > s.len() || s.len() - i < 15 {
        return false;
    }
    if s[i + 0] != 34u8 {
        proof {
            assert(s@.subrange(i as int, i as int + 15) != key_acknowledged()) by {
                assert(s@.subrange(i as int, i as int + 15)[0] == s@[i as int + 0]);
            }
        }
        return false;
    }
    if s[i + 1] != 97u8 {
        proof {
            assert(s@.subrange(i as int, i as int + 15) != key_acknowledged()) by {
                assert(s@.subrange(i as int, i as int + 15)[1] == s@[i as int + 1]);
            }
        }
        return false;
    }
    if s[i + 2] != 99u8 {
        proof {
            assert(s@.subrange(i as int, i as int + 15) != key_acknowledged()) by {
                assert(s@.subrange(i as int, i as int + 15)[2] == s@[i as int + 2]);
            }
        }
        return false;
    }
    if s[i + 3] != 107u8 {
        proof {
            assert(s@.subrange(i as int, i as int + 15) != key_acknowledged()) by {
                assert(s@.subrange(i as int, i as int + 15)[3] == s@[i as int + 3]);
            }
        }
        return false;
    }
    if s[i + 4] != 110u8 {
        proof {
            assert(s@.subrange(i as int, i as int + 15) != key_acknowledged()) by {
                assert(s@.subrange(i as int, i as int + 15)[4] == s@[i as int + 4]);
            }
        }
        return false;
    }
    if s[i + 5] != 111u8 {
        proof {
            assert(s@.subrange(i as int, i as int + 15) != key_acknowledged()) by {
                assert(s@.subrange(i as int, i as int + 15)[5] == s@[i as int + 5]);
            }
        }
        return false;
    }
    if s[i + 6] != 119u8 {
        proof {
            assert(s@.subrange(i as int, i as int + 15) != key_acknowledged()) by {
                assert(s@.subrange(i as int, i as int + 15)[6] == s@[i as int + 6]);
            }
        }
        return false;
    }
    if s[i + 7] != 108u8 {
        proof {
            assert(s@.subrange(i as int, i as int + 15) != key_acknowledged()) by {
                assert(s@.subrange(i as int, i as int + 15)[7] == s@[i as int + 7]);
            }
        }
        return false;
    }
    if s[i + 8] != 101u8 {
        proof {
            assert(s@.subrange(i as int, i as int + 15) != key_acknowledged()) by {
                assert(s@.subrange(i as int, i as int + 15)[8] == s@[i as int + 8]);
            }
        }
        return false;
    }
    if s[i + 9] != 100u8 {
        proof {
            assert(s@.subrange(i as int, i as int + 15) != key_acknowledged()) by {
                assert(s@.subrange(i as int, i as int + 15)[9] == s@[i as int + 9]);
            }
        }
        return false;
    }
    if s[i + 10] != 103u8 {
        proof {
            assert(s@.subrange(i as int, i as int + 15) != key_acknowledged()) by {
                assert(s@.subrange(i as int, i as int + 15)[10] == s@[i as int + 10]);
            }
        }
        return false;
    }
    if s[i + 11] != 101u8 {
        proof {
            assert(s@.subrange(i as int, i as int + 15) != key_acknowledged()) by {
                assert(s@.subrange(i as int, i as int + 15)[11] == s@[i as int + 11]);
            }
        }
        return false;
    }
    if s[i + 12] != 100u8 {
        proof {
            assert(s@.subrange(i as int, i as int + 15) != key_acknowledged()) by {
                assert(s@.subrange(i as int, i as int + 15)[12] == s@[i as int + 12]);
            }
        }
        return false;
    }
    if s[i + 13] != 34u8 {
        proof {
            assert(s@.subrange(i as int, i as int + 15) != key_acknowledged()) by {
                assert(s@.subrange(i as int, i as int + 15)[13] == s@[i as int + 13]);
            }
        }
        return false;
    }
    if s[i + 14] != 58u8 {
        proof {
            assert(s@.subrange(i as int, i as int + 15) != key_acknowledged()) by {
                assert(s@.subrange(i as int, i as int + 15)[14] == s@[i as int + 14]);
            }
        }
        return false;
    }
    proof {
        assert(s@.subrange(i as int, i as int + 15) =~= key_acknowledged());
    }
    true
}

/// Append the field key `"acknowledged":`.
fn push_key_acknowledged(out: &mut Vec<u8>)
    ensures
        final(out)@ == old(out)@ + key_acknowledged(),
{
    out.push(34u8);
    out.push(97u8);
    out.push(99u8);
    out.push(107u8);
    out.push(110u8);
    out.push(111u8);
    out.push(119u8);
    out.push(108u8);
    out.push(101u8);
    out.push(100u8);
    out.push(103u8);
    out.push(101u8);
    out.push(100u8);
    out.push(34u8);
    out.push(58u8);
    proof {
        assert(final(out)@ =~= old(out)@ + key_acknowledged());
    }
}

/// The bytes of the field key `"id":`.
pub open spec fn key_id() -> Seq<u8> {
    seq![34u8, 105u8, 100u8, 34u8, 58u8]
}

/// Whether the field key `"id":` stands at `i`.
fn at_key_id(s: &Vec<u8>, i: usize) -> (r: bool)
    ensures
        r == kw_at(s@, i as int, key_id()),
{
    if i > s.len() || s.len() - i < 5 {
        return false;
    }
    if s[i + 0] != 34u8 {
        proof {
            assert(s@.subrange(i as int, i as int + 5) != key_id()) by {
                assert(s@.subrange(i as int, i as int + 5)[0] == s@[i as int + 0]);
            }
        }
        return false;
    }
    if s[i + 1] != 105u8 {
        proof {
            assert(s@.subrange(i as int, i as int + 5) != key_id()) by {
                assert(s@.subrange(i as int, i as int + 5)[1] == s@[i as int + 1]);
            }
        }
        return false;
    }
    if s[i + 2] != 100u8 {
        proof {
            assert(s@.subrange(i as int, i as int + 5) != key_id()) by {
                assert(s@.subrange(i as int, i as int + 5)[2] == s@[i as int + 2]);
            }
        }
        return false;
    }
    if s[i + 3] != 34u8 {
        proof {
            assert(s@.subrange(i as int, i as int + 5) != key_id()) by {
                assert(s@.subrange(i as int, i as int + 5)[3] == s@[i as int + 3]);
            }
        }
        return false;
    }
    if s[i + 4] != 58u8 {
        proof {
            assert(s@.subrange(i as int, i as int + 5) != key_id()) by {
                assert(s@.subrange(i as int, i as int + 5)[4] == s@[i as int + 4]);
            }
        }
        return false;
    }
    proof {
        assert(s@.subrange(i as int, i as int + 5) =~= key_id());
    }
    true
}

/// Append the field key `"id":`.
fn push_key_id(out: &mut Vec<u8>)
    ensures
        final(out)@ == old(out)@ + key_id(),
{
    out.push(34u8);
    out.push(105u8);
    out.push(100u8);
    out.push(34u8);
    out.push(58u8);
    proof {
        assert(final(out)@ =~= old(out)@ + key_id());
    }
}

/// The bytes of the field key `"x":`.
pub open spec fn key_x() -> Seq<u8> {
    seq![34u8, 120u8, 34u8, 58u8]
}

/// Whether the field key `"x":` stands at `i`.
fn at_key_x(s: &Vec<u8>, i: usize) -> (r: bool)
    ensures
        r == kw_at(s@, i as int, key_x()),
{
    if i > s.len() || s.len() - i < 4 {
        return false;
    }
    if s[i + 0] != 34u8 {
        proof {
            assert(s@.subrange(i as int, i as int + 4) != key_x()) by {
                assert(s@.subrange(i as int, i as int + 4)[0] == s@[i as int + 0]);
            }
        }
        return false;
    }
    if s[i + 1] != 120u8 {
        proof {
            assert(s@.subrange(i as int, i as int + 4) != key_x()) by {
                assert(s@.subrange(i as int, i as int + 4)[1] == s@[i as int + 1]);
            }
        }
        return false;
    }
    if s[i + 2] != 34u8 {
        proof {
            assert(s@.subrange(i as int, i as int + 4) != key_x()) by {
                assert(s@.subrange(i as int, i as int + 4)[2] == s@[i as int + 2]);
            }
        }
        return false;
    }
    if s[i + 3] != 58u8 {
        proof {
            assert(s@.subrange(i as int, i as int + 4) != key_x()) by {
                assert(s@.subrange(i as int, i as int + 4)[3] == s@[i as int + 3]);
            }
        }
        return false;
    }
    proof {
        assert(s@.subrange(i as int, i as int + 4) =~= key_x());
    }
    true
}

/// Append the field key `"x":`.
fn push_key_x(out: &mut Vec<u8>)
    ensures
        final(out)@ == old(out)@ + key_x(),
{
    out.push(34u8);
    out.push(120u8);
    out.push(34u8);
    out.push(58u8);
    proof {
        assert(final(out)@ =~= old(out)@ + key_x());
    }
}

/// The bytes of the field key `"last_jump_at":`.
pub open spec fn key_last_jump_at() -> Seq<u8> {
    seq![34u8, 108u8, 97u8, 115u8, 116u8, 95u8, 106u8, 117u8, 109u8, 112u8, 95u8, 97u8, 116u8, 34u8, 58u8]
}

/// Whether the field key `"last_jump_at":` stands at `i`.
fn at_key_last_jump_at(s: &Vec<u8>, i: usize) -> (r: bool)
    ensures
        r == kw_at(s@, i as int, key_last_jump_at()),
{
    if i > s.len() || s.len() - i < 15 {
        return false;
    }
    if s[i + 0] != 34u8 {
        proof {
            assert(s@.subrange(i as int, i as int + 15) != key_last_jump_at()) by {
                assert(s@.subrange(i as int, i as int + 15)[0] == s@[i as int + 0]);
            }
        }
        return false;
    }
    if s[i + 1] != 108u8 {
        proof {
            assert(s@.subrange(i as int, i as int + 15) != key_last_jump_at()) by {
                assert(s@.subrange(i as int, i as int + 15)[1] == s@[i as int + 1]);
            }
        }
        return false;
    }
    if s[i + 2] != 97u8 {
        proof {
            assert(s@.subrange(i as int, i as int + 15) != key_last_jump_at()) by {
                assert(s@.subrange(i as int, i as int + 15)[2] == s@[i as int + 2]);
            }
        }
        return false;
    }
    if s[i + 3] != 115u8 {
        proof {
            assert(s@.subrange(i as int, i as int + 15) != key_last_jump_at()) by {
                assert(s@.subrange(i as int, i as int + 15)[3] == s@[i as int + 3]);
            }
        }
        return false;
    }
    if s[i + 4] != 116u8 {
        proof {
            assert(s@.subrange(i as int, i as int + 15) != key_last_jump_at()) by {
                assert(s@.subrange(i as int, i as int + 15)[4] == s@[i as int + 4]);
            }
        }
        return false;
    }
    if s[i + 5] != 95u8 {
        proof {
            assert(s@.subrange(i as int, i as int + 15) != key_last_jump_at()) by {
                assert(s@.subrange(i as int, i as int + 15)[5] == s@[i as int + 5]);
            }
        }
        return false;
    }
    if s[i + 6] != 106u8 {
        proof {
            assert(s@.subrange(i as int, i as int + 15) != key_last_jump_at()) by {
                assert(s@.subrange(i as int, i as int + 15)[6] == s@[i as int + 6]);
            }
        }
        return false;
    }
    if s[i + 7] != 117u8 {
        proof {
            assert(s@.subrange(i as int, i as int + 15) != key_last_jump_at()) by {
                assert(s@.subrange(i as int, i as int + 15)[7] == s@[i as int + 7]);
            }
        }
        return false;
    }
    if s[i + 8] != 109u8 {
        proof {
            assert(s@.subrange(i as int, i as int + 15) != key_last_jump_at()) by {
                assert(s@.subrange(i as int, i as int + 15)[8] == s@[i as int + 8]);
            }
        }
        return false;
    }
    if s[i + 9] != 112u8 {
        proof {
            assert(s@.subrange(i as int, i as int + 15) != key_last_jump_at()) by {
                assert(s@.subrange(i as int, i as int + 15)[9] == s@[i as int + 9]);
            }
        }
        return false;
    }
    if s[i + 10] != 95u8 {
        proof {
            assert(s@.subrange(i as int, i as int + 15) != key_last_jump_at()) by {
                assert(s@.subrange(i as int, i as int + 15)[10] == s@[i as int + 10]);
            }
        }
        return false;
    }
    if s[i + 11] != 97u8 {
        proof {
            assert(s@.subrange(i as int, i as int + 15) != key_last_jump_at()) by {
                assert(s@.subrange(i as int, i as int + 15)[11] == s@[i as int + 11]);
            }
        }
        return false;
    }
    if s[i + 12] != 116u8 {
        proof {
            assert(s@.subrange(i as int, i as int + 15) != key_last_jump_at()) by {
                assert(s@.subrange(i as int, i as int + 15)[12] == s@[i as int + 12]);
            }
        }
        return false;
    }
    if s[i + 13] != 34u8 {
        proof {
            assert(s@.subrange(i as int, i as int + 15) != key_last_jump_at()) by {
                assert(s@.subrange(i as int, i as int + 15)[13] == s@[i as int + 13]);
            }
        }
        return false;
    }
    if s[i + 14] != 58u8 {
        proof {
            assert(s@.subrange(i as int, i as int + 15) != key_last_jump_at()) by {
                assert(s@.subrange(i as int, i as int + 15)[14] == s@[i as int + 14]);
            }
        }
        return false;
    }
    proof {
        assert(s@.subrange(i as int, i as int + 15) =~= key_last_jump_at());
    }
    true
}

/// Append the field key `"last_jump_at":`.
fn push_key_last_jump_at(out: &mut Vec<u8>)
    ensures
        final(out)@ == old(out)@ + key_last_jump_at(),
{
    out.push(34u8);
    out.push(108u8);
    out.push(97u8);
    out.push(115u8);
    out.push(116u8);
    out.push(95u8);
    out.push(106u8);
    out.push(117u8);
    out.push(109u8);
    out.push(112u8);
    out.push(95u8);
    out.push(97u8);
    out.push(116u8);
    out.push(34u8);
    out.push(58u8);
    proof {
        assert(final(out)@ =~= old(out)@ + key_last_jump_at());
    }
}

/// The bytes of the field key `"player_id":`.
pub open spec fn key_player_id() -> Seq<u8> {
    seq![34u8, 112u8, 108u8, 97u8, 121u8, 101u8, 114u8, 95u8, 105u8, 100u8, 34u8, 58u8]
}

/// Whether the field key `"player_id":` stands at `i`.
fn at_key_player_id(s: &Vec<u8>, i: usize) -> (r: bool)
    ensures
        r == kw_at(s@, i as int, key_player_id()),
{
    if i > s.len() || s.len() - i < 12 {
        return false;
    }
    if s[i + 0] != 34u8 {
        proof {
            assert(s@.subrange(i as int, i as int + 12) != key_player_id()) by {
                assert(s@.subrange(i as int, i as int + 12)[0] == s@[i as int + 0]);
            }
        }
        return false;
    }
    if s[i + 1] != 112u8 {
        proof {
            assert(s@.subrange(i as int, i as int + 12) != key_player_id()) by {
                assert(s@.subrange(i as int, i as int + 12)[1] == s@[i as int + 1]);
            }
        }
        return false;
    }
    if s[i + 2] != 108u8 {
        proof {
            assert(s@.subrange(i as int, i as int + 12) != key_player_id()) by {
                assert(s@.subrange(i as int, i as int + 12)[2] == s@[i as int + 2]);
            }
        }
        return false;
    }
    if s[i + 3] != 97u8 {
        proof {
            assert(s@.subrange(i as int, i as int + 12) != key_player_id()) by {
                assert(s@.subrange(i as int, i as int + 12)[3] == s@[i as int + 3]);
            }
        }
        return false;
    }
    if s[i + 4] != 121u8 {
        proof {
            assert(s@.subrange(i as int, i as int + 12) != key_player_id()) by {
                assert(s@.subrange(i as int, i as int + 12)[4] == s@[i as int + 4]);
            }
        }
        return false;
    }
    if s[i + 5] != 101u8 {
        proof {
            assert(s@.subrange(i as int, i as int + 12) != key_player_id()) by {
                assert(s@.subrange(i as int, i as int + 12)[5] == s@[i as int + 5]);
            }
        }
        return false;
    }
    if s[i + 6] != 114u8 {
        proof {
            assert(s@.subrange(i as int, i as int + 12) != key_player_id()) by {
                assert(s@.subrange(i as int, i as int + 12)[6] == s@[i as int + 6]);
            }
        }
        return false;
    }
    if s[i + 7] != 95u8 {
        proof {
            assert(s@.subrange(i as int, i as int + 12) != key_player_id()) by {
                assert(s@.subrange(i as int, i as int + 12)[7] == s@[i as int + 7]);
            }
        }
        return false;
    }
    if s[i + 8] != 105u8 {
        proof {
            assert(s@.subrange(i as int, i as int + 12) != key_player_id()) by {
                assert(s@.subrange(i as int, i as int + 12)[8] == s@[i as int + 8]);
            }
        }
        return false;
    }
    if s[i + 9] != 100u8 {
        proof {
            assert(s@.subrange(i as int, i as int + 12) != key_player_id()) by {
                assert(s@.subrange(i as int, i as int + 12)[9] == s@[i as int + 9]);
            }
        }
        return false;
    }
    if s[i + 10] != 34u8 {
        proof {
            assert(s@.subrange(i as int, i as int + 12) != key_player_id()) by {
                assert(s@.subrange(i as int, i as int + 12)[10] == s@[i as int + 10]);
            }
        }
        return false;
    }
    if s[i + 11] != 58u8 {
        proof {
            assert(s@.subrange(i as int, i as int + 12) != key_player_id()) by {
                assert(s@.subrange(i as int, i as int + 12)[11] == s@[i as int + 11]);
            }
        }
        return false;
    }
    proof {
        assert(s@.subrange(i as int, i as int + 12) =~= key_player_id());
    }
    true
}

/// Append the field key `"player_id":`.
fn push_key_player_id(out: &mut Vec<u8>)
    ensures
        final(out)@ == old(out)@ + key_player_id(),
{
    out.push(34u8);
    out.push(112u8);
    out.push(108u8);
    out.push(97u8);
    out.push(121u8);
    out.push(101u8);
    out.push(114u8);
    out.push(95u8);
    out.push(105u8);
    out.push(100u8);
    out.push(34u8);
    out.push(58u8);
    proof {
        assert(final(out)@ =~= old(out)@ + key_player_id());
    }
}

/// The bytes of the field key `"Join":`.
pub open spec fn key_Join() -> Seq<u8> {
    seq![34u8, 74u8, 111u8, 105u8, 110u8, 34u8, 58u8]
}

/// Whether the field key `"Join":` stands at `i`.
fn at_key_Join(s: &Vec<u8>, i: usize) -> (r: bool)
    ensures
        r == kw_at(s@, i as int, key_Join()),
{
    if i > s.len() || s.len() - i < 7 {
        return false;
    }
    if s[i + 0] != 34u8 {
        proof {
            assert(s@.subrange(i as int, i as int + 7) != key_Join()) by {
                assert(s@.subrange(i as int, i as int + 7)[0] == s@[i as int + 0]);
            }
        }
        return false;
    }
    if s[i + 1] != 74u8 {
        proof {
            assert(s@.subrange(i as int, i as int + 7) != key_Join()) by {
                assert(s@.subrange(i as int, i as int + 7)[1] == s@[i as int + 1]);
            }
        }
        return false;
    }
    if s[i + 2] != 111u8 {
        proof {
            assert(s@.subrange(i as int, i as int + 7) != key_Join()) by {
                assert(s@.subrange(i as int, i as int + 7)[2] == s@[i as int + 2]);
            }
        }
        return false;
    }
    if s[i + 3] != 105u8 {
        proof {
            assert(s@.subrange(i as int, i as int + 7) != key_Join()) by {
                assert(s@.subrange(i as int, i as int + 7)[3] == s@[i as int + 3]);
            }
        }
        return false;
    }
    if s[i + 4] != 110u8 {
        proof {
            assert(s@.subrange(i as int, i as int + 7) != key_Join()) by {
                assert(s@.subrange(i as int, i as int + 7)[4] == s@[i as int + 4]);
            }
        }
        return false;
    }
    if s[i + 5] != 34u8 {
        proof {
            assert(s@.subrange(i as int, i as int + 7) != key_Join()) by {
                assert(s@.subrange(i as int, i as int + 7)[5] == s@[i as int + 5]);
            }
        }
        return false;
    }
    if s[i + 6] != 58u8 {
        proof {
            assert(s@.subrange(i as int, i as int + 7) != key_Join()) by {
                assert(s@.subrange(i as int, i as int + 7)[6] == s@[i as int + 6]);
            }
        }
        return false;
    }
    proof {
        assert(s@.subrange(i as int, i as int + 7) =~= key_Join());
    }
    true
}

/// Append the field key `"Join":`.
fn push_key_Join(out: &mut Vec<u8>)
    ensures
        final(out)@ == old(out)@ + key_Join(),
{
    out.push(34u8);
    out.push(74u8);
    out.push(111u8);
    out.push(105u8);
    out.push(110u8);
    out.push(34u8);
    out.push(58u8);
    proof {
        assert(final(out)@ =~= old(out)@ + key_Join());
    }
}

/// The bytes of the field key `"Player":`.
pub open spec fn key_Player() -> Seq<u8> {
    seq![34u8, 80u8, 108u8, 97u8, 121u8, 101u8, 114u8, 34u8, 58u8]
}

/// Whether the field key `"Player":` stands at `i`.
fn at_key_Player(s: &Vec<u8>, i: usize) -> (r: bool)
    ensures
        r == kw_at(s@, i as int, key_Player()),
{
    if i > s.len() || s.len() - i < 9 {
        return false;
    }
    if s[i + 0] != 34u8 {
        proof {
            assert(s@.subrange(i as int, i as int + 9) != key_Player()) by {
                assert(s@.subrange(i as int, i as int + 9)[0] == s@[i as int + 0]);
            }
        }
        return false;
    }
    if s[i + 1] != 80u8 {
        proof {
            assert(s@.subrange(i as int, i as int + 9) != key_Player()) by {
                assert(s@.subrange(i as int, i as int + 9)[1] == s@[i as int + 1]);
            }
        }
        return false;
    }
    if s[i + 2] != 108u8 {
        proof {
            assert(s@.subrange(i as int, i as int + 9) != key_Player()) by {
                assert(s@.subrange(i as int, i as int + 9)[2] == s@[i as int + 2]);
            }
        }
        return false;
    }
    if s[i + 3] != 97u8 {
        proof {
            assert(s@.subrange(i as int, i as int + 9) != key_Player()) by {
                assert(s@.subrange(i as int, i as int + 9)[3] == s@[i as int + 3]);
            }
        }
        return false;
    }
    if s[i + 4] != 121u8 {
        proof {
            assert(s@.subrange(i as int, i as int + 9) != key_Player()) by {
                assert(s@.subrange(i as int, i as int + 9)[4] == s@[i as int + 4]);
            }
        }
        return false;
    }
    if s[i + 5] != 101u8 {
        proof {
            assert(s@.subrange(i as int, i as int + 9) != key_Player()) by {
                assert(s@.subrange(i as int, i as int + 9)[5] == s@[i as int + 5]);
            }
        }
        return false;
    }
    if s[i + 6] != 114u8 {
        proof {
            assert(s@.subrange(i as int, i as int + 9) != key_Player()) by {
                assert(s@.subrange(i as int, i as int + 9)[6] == s@[i as int + 6]);
            }
        }
        return false;
    }
    if s[i + 7] != 34u8 {
        proof {
            assert(s@.subrange(i as int, i as int + 9) != key_Player()) by {
                assert(s@.subrange(i as int, i as int + 9)[7] == s@[i as int + 7]);
            }
        }
        return false;
    }
    if s[i + 8] != 58u8 {
        proof {
            assert(s@.subrange(i as int, i as int + 9) != key_Player()) by {
                assert(s@.subrange(i as int, i as int + 9)[8] == s@[i as int + 8]);
            }
        }
        return false;
    }
    proof {
        assert(s@.subrange(i as int, i as int + 9) =~= key_Player());
    }
    true
}

/// Append the field key `"Player":`.
fn push_key_Player(out: &mut Vec<u8>)
    ensures
        final(out)@ == old(out)@ + key_Player(),
{
    out.push(34u8);
    out.push(80u8);
    out.push(108u8);
    out.push(97u8);
    out.push(121u8);
    out.push(101u8);
    out.push(114u8);
    out.push(34u8);
    out.push(58u8);
    proof {
        assert(final(out)@ =~= old(out)@ + key_Player());
    }
}

/// The bytes of the field key `"action":`.
pub open spec fn key_action() -> Seq<u8> {
    seq![34u8, 97u8, 99u8, 116u8, 105u8, 111u8, 110u8, 34u8, 58u8]
}

/// Whether the field key `"action":` stands at `i`.
fn at_key_action(s: &Vec<u8>, i: usize) -> (r: bool)
    ensures
        r == kw_at(s@, i as int, key_action()),
{
    if i > s.len() || s.len() - i < 9 {
        return false;
    }
    if s[i + 0] != 34u8 {
        proof {
            assert(s@.subrange(i as int, i as int + 9) != key_action()) by {
                assert(s@.subrange(i as int, i as int + 9)[0] == s@[i as int + 0]);
            }
        }
        return false;
    }
    if s[i + 1] != 97u8 {
        proof {
            assert(s@.subrange(i as int, i as int + 9) != key_action()) by {
                assert(s@.subrange(i as int, i as int + 9)[1] == s@[i as int + 1]);
            }
        }
        return false;
    }
    if s[i + 2] != 99u8 {
        proof {
            assert(s@.subrange(i as int, i as int + 9) != key_action()) by {
                assert(s@.subrange(i as int, i as int + 9)[2] == s@[i as int + 2]);
            }
        }
        return false;
    }
    if s[i + 3] != 116u8 {
        proof {
            assert(s@.subrange(i as int, i as int + 9) != key_action()) by {
                assert(s@.subrange(i as int, i as int + 9)[3] == s@[i as int + 3]);
            }
        }
        return false;
    }
    if s[i + 4] != 105u8 {
        proof {
            assert(s@.subrange(i as int, i as int + 9) != key_action()) by {
                assert(s@.subrange(i as int, i as int + 9)[4] == s@[i as int + 4]);
            }
        }
        return false;
    }
    if s[i + 5] != 111u8 {
        proof {
            assert(s@.subrange(i as int, i as int + 9) != key_action()) by {
                assert(s@.subrange(i as int, i as int + 9)[5] == s@[i as int + 5]);
            }
        }
        return false;
    }
    if s[i + 6] != 110u8 {
        proof {
            assert(s@.subrange(i as int, i as int + 9) != key_action()) by {
                assert(s@.subrange(i as int, i as int + 9)[6] == s@[i as int + 6]);
            }
        }
        return false;
    }
    if s[i + 7] != 34u8 {
        proof {
            assert(s@.subrange(i as int, i as int + 9) != key_action()) by {
                assert(s@.subrange(i as int, i as int + 9)[7] == s@[i as int + 7]);
            }
        }
        return false;
    }
    if s[i + 8] != 58u8 {
        proof {
            assert(s@.subrange(i as int, i as int + 9) != key_action()) by {
                assert(s@.subrange(i as int, i as int + 9)[8] == s@[i as int + 8]);
            }
        }
        return false;
    }
    proof {
        assert(s@.subrange(i as int, i as int + 9) =~= key_action());
    }
    true
}

/// Append the field key `"action":`.
fn push_key_action(out: &mut Vec<u8>)
    ensures
        final(out)@ == old(out)@ + key_action(),
{
    out.push(34u8);
    out.push(97u8);
    out.push(99u8);
    out.push(116u8);
    out.push(105u8);
    out.push(111u8);
    out.push(110u8);
    out.push(34u8);
    out.push(58u8);
    proof {
        assert(final(out)@ =~= old(out)@ + key_action());
    }
}

/// The bytes of the field key `"Jump":`.
pub open spec fn key_Jump() -> Seq<u8> {
    seq![34u8, 74u8, 117u8, 109u8, 112u8, 34u8, 58u8]
}

/// Whether the field key `"Jump":` stands at `i`.
fn at_key_Jump(s: &Vec<u8>, i: usize) -> (r: bool)
    ensures
        r == kw_at(s@, i as int, key_Jump()),
{
    if i > s.len() || s.len() - i < 7 {
        return false;
    }
    if s[i + 0] != 34u8 {
        proof {
            assert(s@.subrange(i as int, i as int + 7) != key_Jump()) by {
                assert(s@.subrange(i as int, i as int + 7)[0] == s@[i as int + 0]);
            }
        }
        return false;
    }
    if s[i + 1] != 74u8 {
        proof {
            assert(s@.subrange(i as int, i as int + 7) != key_Jump()) by {
                assert(s@.subrange(i as int, i as int + 7)[1] == s@[i as int + 1]);
            }
        }
        return false;
    }
    if s[i + 2] != 117u8 {
        proof {
            assert(s@.subrange(i as int, i as int + 7) != key_Jump()) by {
                assert(s@.subrange(i as int, i as int + 7)[2] == s@[i as int + 2]);
            }
        }
        return false;
    }
    if s[i + 3] != 109u8 {
        proof {
            assert(s@.subrange(i as int, i as int + 7) != key_Jump()) by {
                assert(s@.subrange(i as int, i as int + 7)[3] == s@[i as int + 3]);
            }
        }
        return false;
    }
    if s[i + 4] != 112u8 {
        proof {
            assert(s@.subrange(i as int, i as int + 7) != key_Jump()) by {
                assert(s@.subrange(i as int, i as int + 7)[4] == s@[i as int + 4]);
            }
        }
        return false;
    }
    if s[i + 5] != 34u8 {
        proof {
            assert(s@.subrange(i as int, i as int + 7) != key_Jump()) by {
                assert(s@.subrange(i as int, i as int + 7)[5] == s@[i as int + 5]);
            }
        }
        return false;
    }
    if s[i + 6] != 58u8 {
        proof {
            assert(s@.subrange(i as int, i as int + 7) != key_Jump()) by {
                assert(s@.subrange(i as int, i as int + 7)[6] == s@[i as int + 6]);
            }
        }
        return false;
    }
    proof {
        assert(s@.subrange(i as int, i as int + 7) =~= key_Jump());
    }
    true
}

/// Append the field key `"Jump":`.
fn push_key_Jump(out: &mut Vec<u8>)
    ensures
        final(out)@ == old(out)@ + key_Jump(),
{
    out.push(34u8);
    out.push(74u8);
    out.push(117u8);
    out.push(109u8);
    out.push(112u8);
    out.push(34u8);
    out.push(58u8);
    proof {
        assert(final(out)@ =~= old(out)@ + key_Jump());
    }
}

/// The bytes of the field key `"at":`.
pub open spec fn key_at() -> Seq<u8> {
    seq![34u8, 97u8, 116u8, 34u8, 58u8]
}

/// Whether the field key `"at":` stands at `i`.
fn at_key_at(s: &Vec<u8>, i: usize) -> (r: bool)
    ensures
        r == kw_at(s@, i as int, key_at()),
{
    if i > s.len() || s.len() - i < 5 {
        return false;
    }
    if s[i + 0] != 34u8 {
        proof {
            assert(s@.subrange(i as int, i as int + 5) != key_at()) by {
                assert(s@.subrange(i as int, i as int + 5)[0] == s@[i as int + 0]);
            }
        }
        return false;
    }
    if s[i + 1] != 97u8 {
        proof {
            assert(s@.subrange(i as int, i as int + 5) != key_at()) by {
                assert(s@.subrange(i as int, i as int + 5)[1] == s@[i as int + 1]);
            }
        }
        return false;
    }
    if s[i + 2] != 116u8 {
        proof {
            assert(s@.subrange(i as int, i as int + 5) != key_at()) by {
                assert(s@.subrange(i as int, i as int + 5)[2] == s@[i as int + 2]);
            }
        }
        return false;
    }
    if s[i + 3] != 34u8 {
        proof {
            assert(s@.subrange(i as int, i as int + 5) != key_at()) by {
                assert(s@.subrange(i as int, i as int + 5)[3] == s@[i as int + 3]);
            }
        }
        return false;
    }
    if s[i + 4] != 58u8 {
        proof {
            assert(s@.subrange(i as int, i as int + 5) != key_at()) by {
                assert(s@.subrange(i as int, i as int + 5)[4] == s@[i as int + 4]);
            }
        }
        return false;
    }
    proof {
        assert(s@.subrange(i as int, i as int + 5) =~= key_at());
    }
    true
}

/// Append the field key `"at":`.
fn push_key_at(out: &mut Vec<u8>)
    ensures
        final(out)@ == old(out)@ + key_at(),
{
    out.push(34u8);
    out.push(97u8);
    out.push(116u8);
    out.push(34u8);
    out.push(58u8);
    proof {
        assert(final(out)@ =~= old(out)@ + key_at());
    }
}

/// The bytes of the field key `"Move":`.
pub open spec fn key_Move() -> Seq<u8> {
    seq![34u8, 77u8, 111u8, 118u8, 101u8, 34u8, 58u8]
}

/// Whether the field key `"Move":` stands at `i`.
fn at_key_Move(s: &Vec<u8>, i: usize) -> (r: bool)
    ensures
        r == kw_at(s@, i as int, key_Move()),
{
    if i > s.len() || s.len() - i < 7 {
        return false;
    }
    if s[i + 0] != 34u8 {
        proof {
            assert(s@.subrange(i as int, i as int + 7) != key_Move()) by {
                assert(s@.subrange(i as int, i as int + 7)[0] == s@[i as int + 0]);
            }
        }
        return false;
    }
    if s[i + 1] != 77u8 {
        proof {
            assert(s@.subrange(i as int, i as int + 7) != key_Move()) by {
                assert(s@.subrange(i as int, i as int + 7)[1] == s@[i as int + 1]);
            }
        }
        return false;
    }
    if s[i + 2] != 111u8 {
        proof {
            assert(s@.subrange(i as int, i as int + 7) != key_Move()) by {
                assert(s@.subrange(i as int, i as int + 7)[2] == s@[i as int + 2]);
            }
        }
        return false;
    }
    if s[i + 3] != 118u8 {
        proof {
            assert(s@.subrange(i as int, i as int + 7) != key_Move()) by {
                assert(s@.subrange(i as int, i as int + 7)[3] == s@[i as int + 3]);
            }
        }
        return false;
    }
    if s[i + 4] != 101u8 {
        proof {
            assert(s@.subrange(i as int, i as int + 7) != key_Move()) by {
                assert(s@.subrange(i as int, i as int + 7)[4] == s@[i as int + 4]);
            }
        }
        return false;
    }
    if s[i + 5] != 34u8 {
        proof {
            assert(s@.subrange(i as int, i as int + 7) != key_Move()) by {
                assert(s@.subrange(i as int, i as int + 7)[5] == s@[i as int + 5]);
            }
        }
        return false;
    }
    if s[i + 6] != 58u8 {
        proof {
            assert(s@.subrange(i as int, i as int + 7) != key_Move()) by {
                assert(s@.subrange(i as int, i as int + 7)[6] == s@[i as int + 6]);
            }
        }
        return false;
    }
    proof {
        assert(s@.subrange(i as int, i as int + 7) =~= key_Move());
    }
    true
}

/// Append the field key `"Move":`.
fn push_key_Move(out: &mut Vec<u8>)
    ensures
        final(out)@ == old(out)@ + key_Move(),
{
    out.push(34u8);
    out.push(77u8);
    out.push(111u8);
    out.push(118u8);
    out.push(101u8);
    out.push(34u8);
    out.push(58u8);
    proof {
        assert(final(out)@ =~= old(out)@ + key_Move());
    }
}

/// The bytes of the field key `"delta_x":`.
pub open spec fn key_delta_x() -> Seq<u8> {
    seq![34u8, 100u8, 101u8, 108u8, 116u8, 97u8, 95u8, 120u8, 34u8, 58u8]
}

/// Whether the field key `"delta_x":` stands at `i`.
fn at_key_delta_x(s: &Vec<u8>, i: usize) -> (r: bool)
    ensures
        r == kw_at(s@, i as int, key_delta_x()),
{
    if i > s.len() || s.len() - i < 10 {
        return false;
    }
    if s[i + 0] != 34u8 {
        proof {
            assert(s@.subrange(i as int, i as int + 10) != key_delta_x()) by {
                assert(s@.subrange(i as int, i as int + 10)[0] == s@[i as int + 0]);
            }
        }
        return false;
    }
    if s[i + 1] != 100u8 {
        proof {
            assert(s@.subrange(i as int, i as int + 10) != key_delta_x()) by {
                assert(s@.subrange(i as int, i as int + 10)[1] == s@[i as int + 1]);
            }
        }
        return false;
    }
    if s[i + 2] != 101u8 {
        proof {
            assert(s@.subrange(i as int, i as int + 10) != key_delta_x()) by {
                assert(s@.subrange(i as int, i as int + 10)[2] == s@[i as int + 2]);
            }
        }
        return false;
    }
    if s[i + 3] != 108u8 {
        proof {
            assert(s@.subrange(i as int, i as int + 10) != key_delta_x()) by {
                assert(s@.subrange(i as int, i as int + 10)[3] == s@[i as int + 3]);
            }
        }
        return false;
    }
    if s[i + 4] != 116u8 {
        proof {
            assert(s@.subrange(i as int, i as int + 10) != key_delta_x()) by {
                assert(s@.subrange(i as int, i as int + 10)[4] == s@[i as int + 4]);
            }
        }
        return false;
    }
    if s[i + 5] != 97u8 {
        proof {
            assert(s@.subrange(i as int, i as int + 10) != key_delta_x()) by {
                assert(s@.subrange(i as int, i as int + 10)[5] == s@[i as int + 5]);
            }
        }
        return false;
    }
    if s[i + 6] != 95u8 {
        proof {
            assert(s@.subrange(i as int, i as int + 10) != key_delta_x()) by {
                assert(s@.subrange(i as int, i as int + 10)[6] == s@[i as int + 6]);
            }
        }
        return false;
    }
    if s[i + 7] != 120u8 {
        proof {
            assert(s@.subrange(i as int, i as int + 10) != key_delta_x()) by {
                assert(s@.subrange(i as int, i as int + 10)[7] == s@[i as int + 7]);
            }
        }
        return false;
    }
    if s[i + 8] != 34u8 {
        proof {
            assert(s@.subrange(i as int, i as int + 10) != key_delta_x()) by {
                assert(s@.subrange(i as int, i as int + 10)[8] == s@[i as int + 8]);
            }
        }
        return false;
    }
    if s[i + 9] != 58u8 {
        proof {
            assert(s@.subrange(i as int, i as int + 10) != key_delta_x()) by {
                assert(s@.subrange(i as int, i as int + 10)[9] == s@[i as int + 9]);
            }
        }
        return false;
    }
    proof {
        assert(s@.subrange(i as int, i as int + 10) =~= key_delta_x());
    }
    true
}

/// Append the field key `"delta_x":`.
fn push_key_delta_x(out: &mut Vec<u8>)
    ensures
        final(out)@ == old(out)@ + key_delta_x(),
{
    out.push(34u8);
    out.push(100u8);
    out.push(101u8);
    out.push(108u8);
    out.push(116u8);
    out.push(97u8);
    out.push(95u8);
    out.push(120u8);
    out.push(34u8);
    out.push(58u8);
    proof {
        assert(final(out)@ =~= old(out)@ + key_delta_x());
    }
}

/// `acc` can take one more digit `d` without overflowing exactly when it is
/// at most `(u128::MAX - d) / 10`.
proof fn lemma_digit_step_bound(acc: u128, d: u128)
    requires
        d <= 9,
    ensures
        acc as nat * 10 + d as nat <= u128::MAX as nat <==> acc <= (u128::MAX - d) / 10,
{
    let m = (u128::MAX - d) as int;
    vstd::arithmetic::div_mod::lemma_fundamental_div_mod(m, 10);
    vstd::arithmetic::div_mod::lemma_mod_bound(m, 10);
    if acc <= (u128::MAX - d) / 10 {
        assert(acc as int * 10 <= (m / 10) * 10) by (nonlinear_arith)
            requires
                acc as int <= m / 10,
        ;
        assert((m / 10) * 10 <= m) by (nonlinear_arith)
            requires
                m == 10 * (m / 10) + m % 10,
                m % 10 >= 0,
        ;
    }
    if acc as nat * 10 + d as nat <= u128::MAX as nat {
        vstd::arithmetic::div_mod::lemma_div_is_ordered(10 * (acc as int), m, 10);
        vstd::arithmetic::div_mod::lemma_div_multiples_vanish(acc as int, 10);
    }
}

/// Parse an unsigned decimal number: the executable mirror of
/// [`parse_u128_at`].
fn parse_u128(s: &Vec<u8>, i: usize) -> (r: Option<(u128, usize)>)
    requires
        i <= s@.len(),
    ensures
        parse_u128_at(s@, i as int) is Some <==> r is Some,
        r matches Some((v, j)) ==> parse_u128_at(s@, i as int) == Some((v, j as int)) && i < j
            <= s@.len(),
{
    if i >= s.len() || s[i] < 48 || s[i] > 57 {
        return None;
    }
    let mut acc: u128 = 0;
    let mut j: usize = i;
    while j < s.len() && s[j] >= 48 && s[j] <= 57
        invariant
            i <= j <= s@.len(),
            parse_u128_at(s@, i as int) == parse_digits_loop(s@, j as int, acc),
            j > i || acc == 0,
        decreases s@.len() - j,
    {
        let d: u128 = (s[j] - 48) as u128;
        proof {
            lemma_digit_step_bound(acc, d);
        }
        if acc > (u128::MAX - d) / 10 {
            return None;
        }
        acc = acc * 10 + d;
        j = j + 1;
    }
    Some((acc, j))
}

/// Parse a signed 64-bit decimal number at `i`: an optional minus sign, then
/// digits; `None` when the value does not fit.
pub open spec fn parse_i64_at(s: Seq<u8>, i: int) -> Option<(i64, int)> {
    if 0 <= i < s.len() && s[i] == 45u8 {
        match parse_u128_at(s, i + 1) {
            Some((m, j)) => if m <= 0x8000_0000_0000_0000u128 {
                Some(((-(m as int)) as i64, j))
            } else {
                None
            },
            None => None,
        }
    } else {
        match parse_u128_at(s, i) {
            Some((m, j)) => if m <= i64::MAX as u128 {
                Some((m as i64, j))
            } else {
                None
            },
            None => None,
        }
    }
}

/// The executable mirror of [`parse_i64_at`].
fn parse_i64(s: &Vec<u8>, i: usize) -> (r: Option<(i64, usize)>)
    requires
        i <= s@.len(),
    ensures
        parse_i64_at(s@, i as int) is Some <==> r is Some,
        r matches Some((v, j)) ==> parse_i64_at(s@, i as int) == Some((v, j as int)) && i < j
            <= s@.len(),
{
    if i < s.len() && s[i] == 45u8 {
        match parse_u128(s, i + 1) {
            Some((m, j)) => {
                if m <= 0x8000_0000_0000_0000u128 {
                    let v: i64 = if m == 0x8000_0000_0000_0000u128 {
                        i64::MIN
                    } else {
                        -(m as i64)
                    };
                    Some((v, j))
                } else {
                    None
                }
            },
            None => None,
        }
    } else {
        match parse_u128(s, i) {
            Some((m, j)) => {
                if m <= i64::MAX as u128 {
                    Some((m as i64, j))
                } else {
                    None
                }
            },
            None => None,
        }
    }
}

/// Parse a player id at `i`: an unsigned decimal that fits a `usize`.
pub open spec fn parse_usize_at(s: Seq<u8>, i: int) -> Option<(usize, int)> {
    match parse_u128_at(s, i) {
        Some((m, j)) => if m <= usize::MAX as u128 {
            Some((m as usize, j))
        } else {
            None
        },
        None => None,
    }
}

/// The executable mirror of [`parse_usize_at`].
fn parse_usize(s: &Vec<u8>, i: usize) -> (r: Option<(usize, usize)>)
    requires
        i <= s@.len(),
    ensures
        parse_usize_at(s@, i as int) is Some <==> r is Some,
        r matches Some((v, j)) ==> parse_usize_at(s@, i as int) == Some((v, j as int)) && i < j
            <= s@.len(),
{
    match parse_u128(s, i) {
        Some((m, j)) => {
            if m <= usize::MAX as u128 {
                Some((m as usize, j))
            } else {
                None
            }
        },
        None => None,
    }
}

/// The decimal encoding of a signed 64-bit value.
pub open spec fn enc_i64(v: i64) -> Seq<u8> {
    if v < 0 {
        seq![45u8] + dec_digits((-(v as int)) as nat)
    } else {
        dec_digits(v as nat)
    }
}

/// Append the decimal encoding of `v`.
fn push_i64(out: &mut Vec<u8>, v: i64)
    ensures
        final(out)@ == old(out)@ + enc_i64(v),
{
    if v < 0 {
        out.push(45u8);
        let m: u128 = (-(v as i128)) as u128;
        push_decimal(out, m);
        assert(final(out)@ =~= old(out)@ + enc_i64(v));
    } else {
        push_decimal(out, v as u128);
    }
}

/// The bytes of the literal `null`.
pub open spec fn lit_null() -> Seq<u8> {
    seq![110u8, 117u8, 108u8, 108u8]
}

/// Whether the literal `null` stands at `i`.
fn at_lit_null(s: &Vec<u8>, i: usize) -> (r: bool)
    ensures
        r == kw_at(s@, i as int, lit_null()),
{
    if i > s.len() || s.len() - i < 4 {
        return false;
    }
    if s[i] == 110u8 && s[i + 1] == 117u8 && s[i + 2] == 108u8 && s[i + 3] == 108u8 {
        proof {
            assert(s@.subrange(i as int, i as int + 4) =~= lit_null());
        }
        true
    } else {
        proof {
            if kw_at(s@, i as int, lit_null()) {
                assert(s@.subrange(i as int, i as int + 4)[0] == s@[i as int]);
                assert(s@.subrange(i as int, i as int + 4)[1] == s@[i as int + 1]);
                assert(s@.subrange(i as int, i as int + 4)[2] == s@[i as int + 2]);
                assert(s@.subrange(i as int, i as int + 4)[3] == s@[i as int + 3]);
            }
        }
        false
    }
}

/// The position just past a string body that starts at `i` (after the
/// opening quote), honoring backslash escapes; `None` when the string never
/// closes.
pub open spec fn skip_string_from(s: Seq<u8>, i: int) -> Option<int>
    decreases s.len() - i,
{
    if !(0 <= i < s.len()) {
        None
    } else if s[i] == 34u8 {
        Some(i + 1)
    } else if s[i] == 92u8 {
        if i + 2 <= s.len() {
            skip_string_from(s, i + 2)
        } else {
            None
        }
    } else {
        skip_string_from(s, i + 1)
    }
}

/// The end of a digit run starting at `i`.
pub open spec fn digits_end(s: Seq<u8>, i: int) -> int
    decreases s.len() - i,
{
    if 0 <= i < s.len() && is_digit(s[i]) {
        digits_end(s, i + 1)
    } else {
        i
    }
}

/// The position just past a decimal number (optional sign, optional
/// fraction) at `i`; `None` when no number stands there.
pub open spec fn skip_number_at(s: Seq<u8>, i: int) -> Option<int> {
    let j = if 0 <= i < s.len() && s[i] == 45u8 {
        i + 1
    } else {
        i
    };
    if 0 <= j < s.len() && is_digit(s[j]) {
        let k = digits_end(s, j);
        if k < s.len() && s[k] == 46u8 {
            if k + 1 < s.len() && is_digit(s[k + 1]) {
                Some(digits_end(s, k + 1))
            } else {
                None
            }
        } else {
            Some(k)
        }
    } else {
        None
    }
}

/// The position just past any value at `i`: an object, array, string,
/// number, or one of the literals `null`, `true`, `false`. Used to ignore
/// the values of unknown fields.
pub open spec fn skip_value_at(s: Seq<u8>, i: int) -> Option<int>
    decreases s.len() - i, 0int,
{
    if !(0 <= i < s.len()) {
        None
    } else if s[i] == 123u8 {
        skip_object_rest(s, i + 1)
    } else if s[i] == 91u8 {
        skip_array_rest(s, i + 1)
    } else if s[i] == 34u8 {
        skip_string_from(s, i + 1)
    } else if s[i] == 110u8 || s[i] == 116u8 {
        if i + 4 <= s.len() {
            Some(i + 4)
        } else {
            None
        }
    } else if s[i] == 102u8 {
        if i + 5 <= s.len() {
            Some(i + 5)
        } else {
            None
        }
    } else {
        skip_number_at(s, i)
    }
}

/// The rest of an object after its opening brace: `"key":value` pairs
/// separated by commas, then the closing brace.
pub open spec fn skip_object_rest(s: Seq<u8>, i: int) -> Option<int>
    decreases s.len() - i, 1int,
{
    if !(0 <= i < s.len()) {
        None
    } else if s[i] == 125u8 {
        Some(i + 1)
    } else if s[i] == 34u8 {
        match skip_string_from(s, i + 1) {
            Some(k) => if i + 1 < k && k < s.len() && s[k] == 58u8 {
                match skip_value_at(s, k + 1) {
                    Some(j) => if k + 1 < j && j < s.len() {
                        if s[j] == 44u8 {
                            skip_object_rest(s, j + 1)
                        } else if s[j] == 125u8 {
                            Some(j + 1)
                        } else {
                            None
                        }
                    } else {
                        None
                    },
                    None => None,
                }
            } else {
                None
            },
            None => None,
        }
    } else {
        None
    }
}

/// The rest of an array after its opening bracket: values separated by
/// commas, then the closing bracket.
pub open spec fn skip_array_rest(s: Seq<u8>, i: int) -> Option<int>
    decreases s.len() - i, 1int,
{
    if !(0 <= i < s.len()) {
        None
    } else if s[i] == 93u8 {
        Some(i + 1)
    } else {
        match skip_value_at(s, i) {
            Some(j) => if i < j && j < s.len() {
                if s[j] == 44u8 {
                    if j + 1 > i {
                        skip_array_rest(s, j + 1)
                    } else {
                        None
                    }
                } else if s[j] == 93u8 {
                    Some(j + 1)
                } else {
                    None
                }
            } else {
                None
            },
            None => None,
        }
    }
}

/// Executable mirror of [`skip_string_from`].
fn skip_string(s: &Vec<u8>, i: usize) -> (r: Option<usize>)
    requires
        i <= s@.len(),
    ensures
        skip_string_from(s@, i as int) is Some <==> r is Some,
        r matches Some(j) ==> skip_string_from(s@, i as int) == Some(j as int) && i < j
            <= s@.len(),
    decreases s@.len() - i,
{
    if i >= s.len() {
        None
    } else if s[i] == 34u8 {
        Some(i + 1)
    } else if s[i] == 92u8 {
        if s.len() - i >= 2 {
            skip_string(s, i + 2)
        } else {
            None
        }
    } else {
        skip_string(s, i + 1)
    }
}

/// Executable mirror of [`digits_end`].
fn digits_end_exec(s: &Vec<u8>, i: usize) -> (r: usize)
    requires
        i <= s@.len(),
    ensures
        r as int == digits_end(s@, i as int),
        i <= r <= s@.len(),
        i < s@.len() && is_digit(s@[i as int]) ==> r > i,
    decreases s@.len() - i,
{
    if i < s.len() && s[i] >= 48 && s[i] <= 57 {
        digits_end_exec(s, i + 1)
    } else {
        i
    }
}

/// Executable mirror of [`skip_number_at`].
fn skip_number(s: &Vec<u8>, i: usize) -> (r: Option<usize>)
    requires
        i <= s@.len(),
    ensures
        skip_number_at(s@, i as int) is Some <==> r is Some,
        r matches Some(j) ==> skip_number_at(s@, i as int) == Some(j as int) && i < j <= s@.len(),
{
    let j: usize = if i < s.len() && s[i] == 45u8 {
        i + 1
    } else {
        i
    };
    if j < s.len() && s[j] >= 48 && s[j] <= 57 {
        let k = digits_end_exec(s, j);
        if k < s.len() && s[k] == 46u8 {
            if k + 1 < s.len() && s[k + 1] >= 48 && s[k + 1] <= 57 {
                Some(digits_end_exec(s, k + 1))
            } else {
                None
            }
        } else {
            Some(k)
        }
    } else {
        None
    }
}

/// Executable mirror of [`skip_value_at`].
fn skip_value(s: &Vec<u8>, i: usize) -> (r: Option<usize>)
    requires
        i <= s@.len(),
    ensures
        skip_value_at(s@, i as int) is Some <==> r is Some,
        r matches Some(j) ==> skip_value_at(s@, i as int) == Some(j as int) && i < j <= s@.len(),
    decreases s@.len() - i, 0int,
{
    if i >= s.len() {
        None
    } else if s[i] == 123u8 {
        skip_object_rest_exec(s, i + 1)
    } else if s[i] == 91u8 {
        skip_array_rest_exec(s, i + 1)
    } else if s[i] == 34u8 {
        skip_string(s, i + 1)
    } else if s[i] == 110u8 || s[i] == 116u8 {
        if s.len() - i >= 4 {
            Some(i + 4)
        } else {
            None
        }
    } else if s[i] == 102u8 {
        if s.len() - i >= 5 {
            Some(i + 5)
        } else {
            None
        }
    } else {
        skip_number(s, i)
    }
}

/// Executable mirror of [`skip_object_rest`].
fn skip_object_rest_exec(s: &Vec<u8>, i: usize) -> (r: Option<usize>)
    requires
        i <= s@.len(),
    ensures
        skip_object_rest(s@, i as int) is Some <==> r is Some,
        r matches Some(j) ==> skip_object_rest(s@, i as int) == Some(j as int) && i < j
            <= s@.len(),
    decreases s@.len() - i, 1int,
{
    if i >= s.len() {
        None
    } else if s[i] == 125u8 {
        Some(i + 1)
    } else if s[i] == 34u8 {
        match skip_string(s, i + 1) {
            Some(k) => {
                if k < s.len() && s[k] == 58u8 {
                    match skip_value(s, k + 1) {
                        Some(j) => {
                            if j < s.len() {
                                if s[j] == 44u8 {
                                    skip_object_rest_exec(s, j + 1)
                                } else if s[j] == 125u8 {
                                    Some(j + 1)
                                } else {
                                    None
                                }
                            } else {
                                None
                            }
                        },
                        None => None,
                    }
                } else {
                    None
                }
            },
            None => None,
        }
    } else {
        None
    }
}

/// Executable mirror of [`skip_array_rest`].
fn skip_array_rest_exec(s: &Vec<u8>, i: usize) -> (r: Option<usize>)
    requires
        i <= s@.len(),
    ensures
        skip_array_rest(s@, i as int) is Some <==> r is Some,
        r matches Some(j) ==> skip_array_rest(s@, i as int) == Some(j as int) && i < j
            <= s@.len(),
    decreases s@.len() - i, 1int,
{
    if i >= s.len() {
        None
    } else if s[i] == 93u8 {
        Some(i + 1)
    } else {
        match skip_value(s, i) {
            Some(j) => {
                if j < s.len() {
                    if s[j] == 44u8 {
                        skip_array_rest_exec(s, j + 1)
                    } else if s[j] == 93u8 {
                        Some(j + 1)
                    } else {
                        None
                    }
                } else {
                    None
                }
            },
            None => None,
        }
    }
}

/// The encoding of a jump time: `null` for a player who never jumped.
pub open spec fn enc_opt_jump(j: Option<i64>) -> Seq<u8> {
    match j {
        Option::None => lit_null(),
        Option::Some(v) => enc_i64(v),
    }
}

/// The canonical encoding of one player record.
pub open spec fn enc_player(p: Player) -> Seq<u8> {
    seq![123u8] + key_id() + dec_digits(p.id as nat) + seq![44u8] + key_x() + enc_i64(p.x)
        + seq![44u8] + key_last_jump_at() + enc_opt_jump(p.last_jump_at) + seq![125u8]
}

/// The canonical encoding of a roster: player records separated by commas.
pub open spec fn enc_players(ps: Seq<Player>) -> Seq<u8>
    decreases ps.len(),
{
    if ps.len() == 0 {
        Seq::empty()
    } else if ps.len() == 1 {
        enc_player(ps[0])
    } else {
        enc_players(ps.drop_last()) + seq![44u8] + enc_player(ps.last())
    }
}

/// The canonical encoding of the acknowledgement list.
pub open spec fn enc_acks(a: Seq<u128>) -> Seq<u8>
    decreases a.len(),
{
    if a.len() == 0 {
        Seq::empty()
    } else if a.len() == 1 {
        dec_digits(a[0] as nat)
    } else {
        enc_acks(a.drop_last()) + seq![44u8] + dec_digits(a.last() as nat)
    }
}

/// The opening half of an encoded snapshot: the roster field.
pub open spec fn enc_snapshot_head(players: Seq<Player>) -> Seq<u8> {
    seq![123u8] + key_players() + seq![91u8] + enc_players(players) + seq![93u8, 44u8]
}

/// The closing half of an encoded snapshot: the timestamp and the
/// acknowledged move identifiers.
pub open spec fn enc_snapshot_tail(timestamp: i64, acks: Seq<u128>) -> Seq<u8> {
    key_timestamp() + enc_i64(timestamp) + seq![44u8] + key_acknowledged() + seq![91u8]
        + enc_acks(acks) + seq![93u8, 125u8]
}

/// The canonical encoding of a world snapshot: the roster, the tick
/// timestamp, and the acknowledged move identifiers. The next id to assign
/// is server-only and never transmitted.
pub open spec fn enc_snapshot(players: Seq<Player>, timestamp: i64, acks: Seq<u128>) -> Seq<u8> {
    enc_snapshot_head(players) + enc_snapshot_tail(timestamp, acks)
}

/// The canonical encoding of a join reply.
pub open spec fn enc_join_response(player_id: usize) -> Seq<u8> {
    seq![123u8] + key_player_id() + dec_digits(player_id as nat) + seq![125u8]
}

/// The canonical encoding of a player action, as a tagged record.
pub open spec fn enc_player_action(a: PlayerAction) -> Seq<u8> {
    match a {
        PlayerAction::Jump { at } => seq![123u8] + key_Jump() + seq![123u8] + key_at() + enc_i64(
            at,
        ) + seq![125u8, 125u8],
        PlayerAction::Move { delta_x, id } => seq![123u8] + key_Move() + seq![123u8]
            + key_delta_x() + enc_i64(delta_x) + seq![44u8] + key_id() + dec_digits(id as nat)
            + seq![125u8, 125u8],
    }
}

/// The canonical encoding of an action, as a tagged record.
pub open spec fn enc_action(a: Action) -> Seq<u8> {
    match a {
        Action::Join => seq![123u8] + key_Join() + lit_null() + seq![125u8],
        Action::Player { id, action } => seq![123u8] + key_Player() + seq![123u8] + key_id()
            + dec_digits(id as nat) + seq![44u8] + key_action() + enc_player_action(action)
            + seq![125u8, 125u8],
    }
}

/// Append the encoding of a jump time.
fn push_opt_jump(out: &mut Vec<u8>, j: Option<i64>)
    ensures
        final(out)@ == old(out)@ + enc_opt_jump(j),
{
    match j {
        None => {
            out.push(110u8);
            out.push(117u8);
            out.push(108u8);
            out.push(108u8);
            assert(final(out)@ =~= old(out)@ + lit_null());
        },
        Some(v) => {
            push_i64(out, v);
        },
    }
}

/// Append the encoding of one player record.
fn push_player(out: &mut Vec<u8>, p: Player)
    ensures
        final(out)@ == old(out)@ + enc_player(p),
{
    out.push(123u8);
    push_key_id(out);
    push_decimal(out, p.id as u128);
    out.push(44u8);
    push_key_x(out);
    push_i64(out, p.x);
    out.push(44u8);
    push_key_last_jump_at(out);
    push_opt_jump(out, p.last_jump_at);
    out.push(125u8);
    assert(final(out)@ =~= old(out)@ + enc_player(p));
}

/// Append the encodings of all players, separated by commas.
fn push_players(out: &mut Vec<u8>, ps: &Vec<Player>)
    ensures
        final(out)@ == old(out)@ + enc_players(ps@),
{
    let ghost base = out@;
    let mut i: usize = 0;
    while i < ps.len()
        invariant
            i <= ps@.len(),
            out@ == base + enc_players(ps@.take(i as int)),
        decreases ps@.len() - i,
    {
        if i > 0 {
            out.push(44u8);
        }
        push_player(out, ps[i]);
        proof {
            assert(ps@.take(i + 1 as int).drop_last() =~= ps@.take(i as int));
            assert(ps@.take(i + 1 as int).last() == ps@[i as int]);
            if i == 0 {
                assert(ps@.take(1int)[0] == ps@[0]);
                assert(out@ =~= base + enc_players(ps@.take(1int)));
            } else {
                assert(out@ =~= base + enc_players(ps@.take(i + 1 as int)));
            }
        }
        i = i + 1;
    }
    proof {
        assert(ps@.take(ps@.len() as int) =~= ps@);
    }
}

/// Append the encodings of all acknowledged identifiers.
fn push_acks(out: &mut Vec<u8>, a: &Vec<u128>)
    ensures
        final(out)@ == old(out)@ + enc_acks(a@),
{
    let ghost base = out@;
    let mut i: usize = 0;
    while i < a.len()
        invariant
            i <= a@.len(),
            out@ == base + enc_acks(a@.take(i as int)),
        decreases a@.len() - i,
    {
        if i > 0 {
            out.push(44u8);
        }
        push_decimal(out, a[i]);
        proof {
            assert(a@.take(i + 1 as int).drop_last() =~= a@.take(i as int));
            assert(a@.take(i + 1 as int).last() == a@[i as int]);
            if i == 0 {
                assert(a@.take(1int)[0] == a@[0]);
                assert(out@ =~= base + enc_acks(a@.take(1int)));
            } else {
                assert(out@ =~= base + enc_acks(a@.take(i + 1 as int)));
            }
        }
        i = i + 1;
    }
    proof {
        assert(a@.take(a@.len() as int) =~= a@);
    }
}

/// Serialize a world snapshot to its canonical wire bytes.
pub fn encode_snapshot(state: &State) -> (r: Vec<u8>)
    ensures
        r@ == enc_snapshot(state.players@, state.timestamp, state.acknowledged@),
{
    let mut out: Vec<u8> = Vec::new();
    out.push(123u8);
    push_key_players(&mut out);
    out.push(91u8);
    push_players(&mut out, &state.players);
    out.push(93u8);
    out.push(44u8);
    push_key_timestamp(&mut out);
    push_i64(&mut out, state.timestamp);
    out.push(44u8);
    push_key_acknowledged(&mut out);
    out.push(91u8);
    push_acks(&mut out, &state.acknowledged);
    out.push(93u8);
    out.push(125u8);
    assert(out@ =~= enc_snapshot_head(state.players@) + enc_snapshot_tail(
        state.timestamp,
        state.acknowledged@,
    ));
    out
}

/// Serialize a join reply to its canonical wire bytes.
pub fn encode_join_response(reply: &JoinResponse) -> (r: Vec<u8>)
    ensures
        r@ == enc_join_response(reply.player_id),
{
    let mut out: Vec<u8> = Vec::new();
    out.push(123u8);
    push_key_player_id(&mut out);
    push_decimal(&mut out, reply.player_id as u128);
    out.push(125u8);
    assert(out@ =~= enc_join_response(reply.player_id));
    out
}

/// Serialize an action to its canonical wire bytes.
pub fn encode_action(a: &Action) -> (r: Vec<u8>)
    ensures
        r@ == enc_action(*a),
{
    let mut out: Vec<u8> = Vec::new();
    out.push(123u8);
    match a {
        Action::Join => {
            push_key_Join(&mut out);
            out.push(110u8);
            out.push(117u8);
            out.push(108u8);
            out.push(108u8);
            out.push(125u8);
        },
        Action::Player { id, action } => {
            push_key_Player(&mut out);
            out.push(123u8);
            push_key_id(&mut out);
            push_decimal(&mut out, *id as u128);
            out.push(44u8);
            push_key_action(&mut out);
            out.push(123u8);
            match action {
                PlayerAction::Jump { at } => {
                    push_key_Jump(&mut out);
                    out.push(123u8);
                    push_key_at(&mut out);
                    push_i64(&mut out, *at);
                    out.push(125u8);
                    out.push(125u8);
                },
                PlayerAction::Move { delta_x, id: move_id } => {
                    push_key_Move(&mut out);
                    out.push(123u8);
                    push_key_delta_x(&mut out);
                    push_i64(&mut out, *delta_x);
                    out.push(44u8);
                    push_key_id(&mut out);
                    push_decimal(&mut out, *move_id);
                    out.push(125u8);
                    out.push(125u8);
                },
            }
            out.push(125u8);
            out.push(125u8);
        },
    }
    assert(out@ =~= enc_action(*a));
    out
}

/// The position just past one unknown `"key":value` field at `i`.
pub open spec fn skip_field_at(s: Seq<u8>, i: int) -> Option<int> {
    if 0 <= i < s.len() && s[i] == 34u8 {
        match skip_string_from(s, i + 1) {
            Some(k) => if k < s.len() && s[k] == 58u8 {
                match skip_value_at(s, k + 1) {
                    Some(j) => if i < j <= s.len() {
                        Some(j)
                    } else {
                        None
                    },
                    None => None,
                }
            } else {
                None
            },
            None => None,
        }
    } else {
        None
    }
}

/// Executable mirror of [`skip_field_at`].
fn skip_field(s: &Vec<u8>, i: usize) -> (r: Option<usize>)
    requires
        i <= s@.len(),
    ensures
        skip_field_at(s@, i as int) is Some <==> r is Some,
        r matches Some(j) ==> skip_field_at(s@, i as int) == Some(j as int) && i < j <= s@.len(),
{
    if i < s.len() && s[i] == 34u8 {
        match skip_string(s, i + 1) {
            Some(k) => {
                if k < s.len() && s[k] == 58u8 {
                    skip_value(s, k + 1)
                } else {
                    None
                }
            },
            None => None,
        }
    } else {
        None
    }
}

/// A parsed jump time: `null` or a signed number.
pub open spec fn parse_opt_jump_at(s: Seq<u8>, i: int) -> Option<(Option<i64>, int)> {
    if kw_at(s, i, lit_null()) {
        Some((Option::None, i + 4))
    } else {
        match parse_i64_at(s, i) {
            Some((v, j)) => Some((Option::Some(v), j)),
            None => None,
        }
    }
}

/// Executable mirror of [`parse_opt_jump_at`].
fn parse_opt_jump(s: &Vec<u8>, i: usize) -> (r: Option<(Option<i64>, usize)>)
    requires
        i <= s@.len(),
    ensures
        parse_opt_jump_at(s@, i as int) is Some <==> r is Some,
        r matches Some((v, j)) ==> parse_opt_jump_at(s@, i as int) == Some((v, j as int)) && i < j
            <= s@.len(),
{
    let n = s.len();
    if at_lit_null(s, i) {
        proof {
            assert(lit_null().len() == 4);
            assert(i + 4 <= n);
        }
        Some((None, i + 4))
    } else {
        match parse_i64(s, i) {
            Some((v, j)) => Some((Some(v), j)),
            None => None,
        }
    }
}

/// A finished player record: both required fields must have been seen; a
/// missing jump time means the player never jumped.
pub open spec fn player_done(oid: Option<usize>, ox: Option<i64>, oj: Option<i64>, pos: int) -> Option<
    (Player, int),
> {
    match (oid, ox) {
        (Option::Some(id), Option::Some(x)) => Some((Player { id, x, last_jump_at: oj }, pos)),
        _ => None,
    }
}

/// The fields of a player record, in any order, unknown fields skipped,
/// later duplicates winning.
pub open spec fn parse_player_fields(
    s: Seq<u8>,
    i: int,
    oid: Option<usize>,
    ox: Option<i64>,
    oj: Option<i64>,
) -> Option<(Player, int)>
    decreases s.len() - i,
{
    if !(0 <= i < s.len()) {
        None
    } else if s[i] == 125u8 {
        player_done(oid, ox, oj, i + 1)
    } else if kw_at(s, i, key_id()) {
        match parse_usize_at(s, i + key_id().len()) {
            Some((v, j)) => if i < j < s.len() {
                if s[j] == 44u8 {
                    parse_player_fields(s, j + 1, Some(v), ox, oj)
                } else if s[j] == 125u8 {
                    player_done(Some(v), ox, oj, j + 1)
                } else {
                    None
                }
            } else {
                None
            },
            None => None,
        }
    } else if kw_at(s, i, key_x()) {
        match parse_i64_at(s, i + key_x().len()) {
            Some((v, j)) => if i < j < s.len() {
                if s[j] == 44u8 {
                    parse_player_fields(s, j + 1, oid, Some(v), oj)
                } else if s[j] == 125u8 {
                    player_done(oid, Some(v), oj, j + 1)
                } else {
                    None
                }
            } else {
                None
            },
            None => None,
        }
    } else if kw_at(s, i, key_last_jump_at()) {
        match parse_opt_jump_at(s, i + key_last_jump_at().len()) {
            Some((v, j)) => if i < j < s.len() {
                if s[j] == 44u8 {
                    parse_player_fields(s, j + 1, oid, ox, v)
                } else if s[j] == 125u8 {
                    player_done(oid, ox, v, j + 1)
                } else {
                    None
                }
            } else {
                None
            },
            None => None,
        }
    } else {
        match skip_field_at(s, i) {
            Some(j) => if i < j < s.len() {
                if s[j] == 44u8 {
                    parse_player_fields(s, j + 1, oid, ox, oj)
                } else if s[j] == 125u8 {
                    player_done(oid, ox, oj, j + 1)
                } else {
                    None
                }
            } else {
                None
            },
            None => None,
        }
    }
}

/// One player record at `i`.
pub open spec fn parse_player_at(s: Seq<u8>, i: int) -> Option<(Player, int)> {
    if 0 <= i < s.len() && s[i] == 123u8 {
        parse_player_fields(s, i + 1, Option::None, Option::None, Option::None)
    } else {
        None
    }
}

/// Executable mirror of [`parse_player_fields`].
fn parse_player_fields_exec(
    s: &Vec<u8>,
    i: usize,
    oid: Option<usize>,
    ox: Option<i64>,
    oj: Option<i64>,
) -> (r: Option<(Player, usize)>)
    requires
        i <= s@.len(),
    ensures
        parse_player_fields(s@, i as int, oid, ox, oj) is Some <==> r is Some,
        r matches Some((v, j)) ==> parse_player_fields(s@, i as int, oid, ox, oj) == Some(
            (v, j as int),
        ) && i < j <= s@.len(),
    decreases s@.len() - i,
{
    if i >= s.len() {
        None
    } else if s[i] == 125u8 {
        match (oid, ox) {
            (Some(id), Some(x)) => Some((Player { id, x, last_jump_at: oj }, i + 1)),
            _ => None,
        }
    } else if at_key_id(s, i) {
        match parse_usize(s, i + 5) {
            Some((v, j)) => {
                if j < s.len() {
                    if s[j] == 44u8 {
                        parse_player_fields_exec(s, j + 1, Some(v), ox, oj)
                    } else if s[j] == 125u8 {
                        match (Some(v), ox) {
                            (Some(id), Some(x)) => Some((Player { id, x, last_jump_at: oj }, j + 1)),
                            _ => None,
                        }
                    } else {
                        None
                    }
                } else {
                    None
                }
            },
            None => None,
        }
    } else if at_key_x(s, i) {
        match parse_i64(s, i + 4) {
            Some((v, j)) => {
                if j < s.len() {
                    if s[j] == 44u8 {
                        parse_player_fields_exec(s, j + 1, oid, Some(v), oj)
                    } else if s[j] == 125u8 {
                        match (oid, Some(v)) {
                            (Some(id), Some(x)) => Some((Player { id, x, last_jump_at: oj }, j + 1)),
                            _ => None,
                        }
                    } else {
                        None
                    }
                } else {
                    None
                }
            },
            None => None,
        }
    } else if at_key_last_jump_at(s, i) {
        match parse_opt_jump(s, i + 15) {
            Some((v, j)) => {
                if j < s.len() {
                    if s[j] == 44u8 {
                        parse_player_fields_exec(s, j + 1, oid, ox, v)
                    } else if s[j] == 125u8 {
                        match (oid, ox) {
                            (Some(id), Some(x)) => Some(
                                (Player { id, x, last_jump_at: v }, j + 1),
                            ),
                            _ => None,
                        }
                    } else {
                        None
                    }
                } else {
                    None
                }
            },
            None => None,
        }
    } else {
        match skip_field(s, i) {
            Some(j) => {
                if j < s.len() {
                    if s[j] == 44u8 {
                        parse_player_fields_exec(s, j + 1, oid, ox, oj)
                    } else if s[j] == 125u8 {
                        match (oid, ox) {
                            (Some(id), Some(x)) => Some(
                                (Player { id, x, last_jump_at: oj }, j + 1),
                            ),
                            _ => None,
                        }
                    } else {
                        None
                    }
                } else {
                    None
                }
            },
            None => None,
        }
    }
}

/// Executable mirror of [`parse_player_at`].
fn parse_player(s: &Vec<u8>, i: usize) -> (r: Option<(Player, usize)>)
    requires
        i <= s@.len(),
    ensures
        parse_player_at(s@, i as int) is Some <==> r is Some,
        r matches Some((v, j)) ==> parse_player_at(s@, i as int) == Some((v, j as int)) && i < j
            <= s@.len(),
{
    if i < s.len() && s[i] == 123u8 {
        parse_player_fields_exec(s, i + 1, None, None, None)
    } else {
        None
    }
}

/// The elements of a player array after the opening bracket, given those
/// already parsed.
pub open spec fn parse_players_elems(s: Seq<u8>, i: int, acc: Seq<Player>) -> Option<
    (Seq<Player>, int),
>
    decreases s.len() - i,
{
    match parse_player_at(s, i) {
        Some((p, j)) => if i < j < s.len() {
            if s[j] == 44u8 {
                parse_players_elems(s, j + 1, acc.push(p))
            } else if s[j] == 93u8 {
                Some((acc.push(p), j + 1))
            } else {
                None
            }
        } else {
            None
        },
        None => None,
    }
}

/// A player array at `i`: a bracketed, comma-separated list of records.
pub open spec fn parse_players_arr(s: Seq<u8>, i: int) -> Option<(Seq<Player>, int)> {
    if 0 <= i < s.len() && s[i] == 91u8 {
        if i + 1 < s.len() && s[i + 1] == 93u8 {
            Some((Seq::empty(), i + 2))
        } else {
            parse_players_elems(s, i + 1, Seq::empty())
        }
    } else {
        None
    }
}

/// Executable mirror of [`parse_players_elems`] and [`parse_players_arr`]:
/// parse a player array into a vector.
fn parse_players_vec(s: &Vec<u8>, i: usize) -> (r: Option<(Vec<Player>, usize)>)
    requires
        i <= s@.len(),
    ensures
        parse_players_arr(s@, i as int) is Some <==> r is Some,
        r matches Some((v, j)) ==> parse_players_arr(s@, i as int) == Some((v@, j as int)) && i
            < j <= s@.len(),
{
    if i < s.len() && s[i] == 91u8 {
        if i + 1 < s.len() && s[i + 1] == 93u8 {
            let out: Vec<Player> = Vec::new();
            assert(out@ =~= Seq::<Player>::empty());
            return Some((out, i + 2));
        }
        let mut out: Vec<Player> = Vec::new();
        let mut k: usize = i + 1;
        assert(out@ =~= Seq::<Player>::empty());
        loop
            invariant
                i as int + 1 <= k as int <= s@.len(),
                parse_players_arr(s@, i as int) == parse_players_elems(
                    s@,
                    i as int + 1,
                    Seq::empty(),
                ),
                parse_players_elems(s@, i as int + 1, Seq::empty()) == parse_players_elems(
                    s@,
                    k as int,
                    out@,
                ),
            decreases s@.len() - k,
        {
            match parse_player(s, k) {
                Some((p, j)) => {
                    if j < s.len() {
                        if s[j] == 44u8 {
                            out.push(p);
                            k = j + 1;
                        } else if s[j] == 93u8 {
                            out.push(p);
                            return Some((out, j + 1));
                        } else {
                            return None;
                        }
                    } else {
                        return None;
                    }
                },
                None => {
                    return None;
                },
            }
        }
    } else {
        None
    }
}

/// The identifier elements of an acknowledgement array.
pub open spec fn parse_acks_elems(s: Seq<u8>, i: int, acc: Seq<u128>) -> Option<(Seq<u128>, int)>
    decreases s.len() - i,
{
    match parse_u128_at(s, i) {
        Some((p, j)) => if i < j < s.len() {
            if s[j] == 44u8 {
                parse_acks_elems(s, j + 1, acc.push(p))
            } else if s[j] == 93u8 {
                Some((acc.push(p), j + 1))
            } else {
                None
            }
        } else {
            None
        },
        None => None,
    }
}

/// An acknowledgement array at `i`.
pub open spec fn parse_acks_arr(s: Seq<u8>, i: int) -> Option<(Seq<u128>, int)> {
    if 0 <= i < s.len() && s[i] == 91u8 {
        if i + 1 < s.len() && s[i + 1] == 93u8 {
            Some((Seq::empty(), i + 2))
        } else {
            parse_acks_elems(s, i + 1, Seq::empty())
        }
    } else {
        None
    }
}

/// Executable mirror of [`parse_acks_arr`].
fn parse_acks_vec(s: &Vec<u8>, i: usize) -> (r: Option<(Vec<u128>, usize)>)
    requires
        i <= s@.len(),
    ensures
        parse_acks_arr(s@, i as int) is Some <==> r is Some,
        r matches Some((v, j)) ==> parse_acks_arr(s@, i as int) == Some((v@, j as int)) && i < j
            <= s@.len(),
{
    if i < s.len() && s[i] == 91u8 {
        if i + 1 < s.len() && s[i + 1] == 93u8 {
            let out: Vec<u128> = Vec::new();
            assert(out@ =~= Seq::<u128>::empty());
            return Some((out, i + 2));
        }
        let mut out: Vec<u128> = Vec::new();
        let mut k: usize = i + 1;
        assert(out@ =~= Seq::<u128>::empty());
        loop
            invariant
                i as int + 1 <= k as int <= s@.len(),
                parse_acks_arr(s@, i as int) == parse_acks_elems(
                    s@,
                    i as int + 1,
                    Seq::empty(),
                ),
                parse_acks_elems(s@, i as int + 1, Seq::empty()) == parse_acks_elems(
                    s@,
                    k as int,
                    out@,
                ),
            decreases s@.len() - k,
        {
            match parse_u128(s, k) {
                Some((p, j)) => {
                    if j < s.len() {
                        if s[j] == 44u8 {
                            out.push(p);
                            k = j + 1;
                        } else if s[j] == 93u8 {
                            out.push(p);
                            return Some((out, j + 1));
                        } else {
                            return None;
                        }
                    } else {
                        return None;
                    }
                },
                None => {
                    return None;
                },
            }
        }
    } else {
        None
    }
}

/// A finished snapshot: the roster, timestamp and acknowledgements must all
/// have been seen.
pub open spec fn snapshot_done(
    ops: Option<Seq<Player>>,
    ots: Option<i64>,
    oa: Option<Seq<u128>>,
    pos: int,
) -> Option<(Seq<Player>, i64, Seq<u128>, int)> {
    match (ops, ots, oa) {
        (Option::Some(ps), Option::Some(ts), Option::Some(a)) => Some((ps, ts, a, pos)),
        _ => None,
    }
}

/// The fields of a snapshot record, in any order, unknown fields skipped.
pub open spec fn parse_snapshot_fields(
    s: Seq<u8>,
    i: int,
    ops: Option<Seq<Player>>,
    ots: Option<i64>,
    oa: Option<Seq<u128>>,
) -> Option<(Seq<Player>, i64, Seq<u128>, int)>
    decreases s.len() - i,
{
    if !(0 <= i < s.len()) {
        None
    } else if s[i] == 125u8 {
        snapshot_done(ops, ots, oa, i + 1)
    } else if kw_at(s, i, key_players()) {
        match parse_players_arr(s, i + key_players().len()) {
            Some((v, j)) => if i < j < s.len() {
                if s[j] == 44u8 {
                    parse_snapshot_fields(s, j + 1, Some(v), ots, oa)
                } else if s[j] == 125u8 {
                    snapshot_done(Some(v), ots, oa, j + 1)
                } else {
                    None
                }
            } else {
                None
            },
            None => None,
        }
    } else if kw_at(s, i, key_timestamp()) {
        match parse_i64_at(s, i + key_timestamp().len()) {
            Some((v, j)) => if i < j < s.len() {
                if s[j] == 44u8 {
                    parse_snapshot_fields(s, j + 1, ops, Some(v), oa)
                } else if s[j] == 125u8 {
                    snapshot_done(ops, Some(v), oa, j + 1)
                } else {
                    None
                }
            } else {
                None
            },
            None => None,
        }
    } else if kw_at(s, i, key_acknowledged()) {
        match parse_acks_arr(s, i + key_acknowledged().len()) {
            Some((v, j)) => if i < j < s.len() {
                if s[j] == 44u8 {
                    parse_snapshot_fields(s, j + 1, ops, ots, Some(v))
                } else if s[j] == 125u8 {
                    snapshot_done(ops, ots, Some(v), j + 1)
                } else {
                    None
                }
            } else {
                None
            },
            None => None,
        }
    } else {
        match skip_field_at(s, i) {
            Some(j) => if i < j < s.len() {
                if s[j] == 44u8 {
                    parse_snapshot_fields(s, j + 1, ops, ots, oa)
                } else if s[j] == 125u8 {
                    snapshot_done(ops, ots, oa, j + 1)
                } else {
                    None
                }
            } else {
                None
            },
            None => None,
        }
    }
}

/// A whole snapshot record: the object must span the entire input.
pub open spec fn parse_snapshot_spec(s: Seq<u8>) -> Option<(Seq<Player>, i64, Seq<u128>)> {
    if s.len() > 0 && s[0] == 123u8 {
        match parse_snapshot_fields(s, 1, Option::None, Option::None, Option::None) {
            Some((ps, ts, a, j)) => if j == s.len() {
                Some((ps, ts, a))
            } else {
                None
            },
            None => None,
        }
    } else {
        None
    }
}

/// Executable mirror of [`parse_snapshot_fields`].
fn parse_snapshot_fields_exec(
    s: &Vec<u8>,
    i: usize,
    ops: Option<Vec<Player>>,
    ots: Option<i64>,
    oa: Option<Vec<u128>>,
) -> (r: Option<(Vec<Player>, i64, Vec<u128>, usize)>)
    requires
        i <= s@.len(),
    ensures
        parse_snapshot_fields(
            s@,
            i as int,
            match ops {
                Option::Some(v) => Option::Some(v@),
                Option::None => Option::None,
            },
            ots,
            match oa {
                Option::Some(v) => Option::Some(v@),
                Option::None => Option::None,
            },
        ) == (match r {
            Option::Some((ps, ts, a, j)) => Option::Some((ps@, ts, a@, j as int)),
            Option::None => Option::None::<(Seq<Player>, i64, Seq<u128>, int)>,
        }),
        r matches Some((ps, ts, a, j)) ==> i < j <= s@.len(),
    decreases s@.len() - i,
{
    if i >= s.len() {
        None
    } else if s[i] == 125u8 {
        match (ops, ots, oa) {
            (Some(ps), Some(ts), Some(a)) => Some((ps, ts, a, i + 1)),
            _ => None,
        }
    } else if at_key_players(s, i) {
        match parse_players_vec(s, i + 10) {
            Some((v, j)) => {
                if j < s.len() {
                    if s[j] == 44u8 {
                        parse_snapshot_fields_exec(s, j + 1, Some(v), ots, oa)
                    } else if s[j] == 125u8 {
                        match (ots, oa) {
                            (Some(ts), Some(a)) => Some((v, ts, a, j + 1)),
                            _ => None,
                        }
                    } else {
                        None
                    }
                } else {
                    None
                }
            },
            None => None,
        }
    } else if at_key_timestamp(s, i) {
        match parse_i64(s, i + 12) {
            Some((v, j)) => {
                if j < s.len() {
                    if s[j] == 44u8 {
                        parse_snapshot_fields_exec(s, j + 1, ops, Some(v), oa)
                    } else if s[j] == 125u8 {
                        match (ops, oa) {
                            (Some(ps), Some(a)) => Some((ps, v, a, j + 1)),
                            _ => None,
                        }
                    } else {
                        None
                    }
                } else {
                    None
                }
            },
            None => None,
        }
    } else if at_key_acknowledged(s, i) {
        match parse_acks_vec(s, i + 15) {
            Some((v, j)) => {
                if j < s.len() {
                    if s[j] == 44u8 {
                        parse_snapshot_fields_exec(s, j + 1, ops, ots, Some(v))
                    } else if s[j] == 125u8 {
                        match (ops, ots) {
                            (Some(ps), Some(ts)) => Some((ps, ts, v, j + 1)),
                            _ => None,
                        }
                    } else {
                        None
                    }
                } else {
                    None
                }
            },
            None => None,
        }
    } else {
        match skip_field(s, i) {
            Some(j) => {
                if j < s.len() {
                    if s[j] == 44u8 {
                        parse_snapshot_fields_exec(s, j + 1, ops, ots, oa)
                    } else if s[j] == 125u8 {
                        match (ops, ots, oa) {
                            (Some(ps), Some(ts), Some(a)) => Some((ps, ts, a, j + 1)),
                            _ => None,
                        }
                    } else {
                        None
                    }
                } else {
                    None
                }
            },
            None => None,
        }
    }
}

/// Whether the roster parsed from the wire is sorted by strictly increasing
/// id, as every roster this crate produces is.
fn roster_is_sorted(v: &Vec<Player>) -> (r: bool)
    ensures
        r == crate::state::roster_sorted(v@),
{
    let n = v.len();
    if n == 0 {
        return true;
    }
    let mut i: usize = 0;
    while i < n - 1
        invariant
            n == v@.len(),
            n >= 1,
            i <= n - 1,
            forall|a: int, b: int| 0 <= a < b <= i ==> v@[a].id < v@[b].id,
        decreases n - i,
    {
        if v[i].id >= v[i + 1].id {
            return false;
        }
        i = i + 1;
    }
    true
}

/// Decode a world snapshot from its wire bytes. The record's fields may come
/// in any order and unknown fields are ignored; a missing required field, a
/// malformed byte, trailing bytes, or a roster that is not sorted by
/// strictly increasing id fail the parse.
pub fn parse_snapshot(bytes: &Vec<u8>) -> (r: Option<State>)
    ensures
        match parse_snapshot_spec(bytes@) {
            Option::Some((ps, ts, a)) => if crate::state::roster_sorted(ps) {
                r matches Some(st) && st.players@ == ps && st.timestamp == ts && st.acknowledged@
                    == a && st.new_player_id == 0
            } else {
                r is None
            },
            Option::None => r is None,
        },
        r matches Some(st) ==> crate::state::roster_sorted(st.players@),
{
    if bytes.len() == 0 || bytes[0] != 123u8 {
        return None;
    }
    match parse_snapshot_fields_exec(bytes, 1, None, None, None) {
        Some((ps, ts, a, j)) => {
            if j != bytes.len() {
                return None;
            }
            if !roster_is_sorted(&ps) {
                return None;
            }
            Some(State { players: ps, timestamp: ts, new_player_id: 0, acknowledged: a })
        },
        None => None,
    }
}

/// The fields of a join reply.
pub open spec fn parse_jr_fields(s: Seq<u8>, i: int, opid: Option<usize>) -> Option<(usize, int)>
    decreases s.len() - i,
{
    if !(0 <= i < s.len()) {
        None
    } else if s[i] == 125u8 {
        match opid {
            Option::Some(v) => Some((v, i + 1)),
            Option::None => None,
        }
    } else if kw_at(s, i, key_player_id()) {
        match parse_usize_at(s, i + key_player_id().len()) {
            Some((v, j)) => if i < j < s.len() {
                if s[j] == 44u8 {
                    parse_jr_fields(s, j + 1, Some(v))
                } else if s[j] == 125u8 {
                    Some((v, j + 1))
                } else {
                    None
                }
            } else {
                None
            },
            None => None,
        }
    } else {
        match skip_field_at(s, i) {
            Some(j) => if i < j < s.len() {
                if s[j] == 44u8 {
                    parse_jr_fields(s, j + 1, opid)
                } else if s[j] == 125u8 {
                    match opid {
                        Option::Some(v) => Some((v, j + 1)),
                        Option::None => None,
                    }
                } else {
                    None
                }
            } else {
                None
            },
            None => None,
        }
    }
}

/// A whole join reply record.
pub open spec fn parse_join_response_spec(s: Seq<u8>) -> Option<usize> {
    if s.len() > 0 && s[0] == 123u8 {
        match parse_jr_fields(s, 1, Option::None) {
            Some((v, j)) => if j == s.len() {
                Some(v)
            } else {
                None
            },
            None => None,
        }
    } else {
        None
    }
}

/// Executable mirror of [`parse_jr_fields`].
fn parse_jr_fields_exec(s: &Vec<u8>, i: usize, opid: Option<usize>) -> (r: Option<(usize, usize)>)
    requires
        i <= s@.len(),
    ensures
        parse_jr_fields(s@, i as int, opid) == (match r {
            Option::Some((v, j)) => Option::Some((v, j as int)),
            Option::None => Option::None::<(usize, int)>,
        }),
    decreases s@.len() - i,
{
    if i >= s.len() {
        None
    } else if s[i] == 125u8 {
        match opid {
            Some(v) => Some((v, i + 1)),
            None => None,
        }
    } else if at_key_player_id(s, i) {
        match parse_usize(s, i + 12) {
            Some((v, j)) => {
                if j < s.len() {
                    if s[j] == 44u8 {
                        parse_jr_fields_exec(s, j + 1, Some(v))
                    } else if s[j] == 125u8 {
                        Some((v, j + 1))
                    } else {
                        None
                    }
                } else {
                    None
                }
            },
            None => None,
        }
    } else {
        match skip_field(s, i) {
            Some(j) => {
                if j < s.len() {
                    if s[j] == 44u8 {
                        parse_jr_fields_exec(s, j + 1, opid)
                    } else if s[j] == 125u8 {
                        match opid {
                            Some(v) => Some((v, j + 1)),
                            None => None,
                        }
                    } else {
                        None
                    }
                } else {
                    None
                }
            },
            None => None,
        }
    }
}

/// Decode a join reply from its wire bytes.
pub fn parse_join_response(bytes: &Vec<u8>) -> (r: Option<JoinResponse>)
    ensures
        match parse_join_response_spec(bytes@) {
            Option::Some(v) => r matches Some(jr) && jr.player_id == v,
            Option::None => r is None,
        },
{
    if bytes.len() == 0 || bytes[0] != 123u8 {
        return None;
    }
    match parse_jr_fields_exec(bytes, 1, None) {
        Some((v, j)) => {
            if j == bytes.len() {
                Some(JoinResponse { player_id: v })
            } else {
                None
            }
        },
        None => None,
    }
}

/// The fields of a jump record: the start instant is required.
pub open spec fn parse_jump_fields(s: Seq<u8>, i: int, oat: Option<i64>) -> Option<
    (PlayerAction, int),
>
    decreases s.len() - i,
{
    if !(0 <= i < s.len()) {
        None
    } else if s[i] == 125u8 {
        match oat {
            Option::Some(at) => Some((PlayerAction::Jump { at }, i + 1)),
            Option::None => None,
        }
    } else if kw_at(s, i, key_at()) {
        match parse_i64_at(s, i + key_at().len()) {
            Some((v, j)) => if i < j < s.len() {
                if s[j] == 44u8 {
                    parse_jump_fields(s, j + 1, Some(v))
                } else if s[j] == 125u8 {
                    Some((PlayerAction::Jump { at: v }, j + 1))
                } else {
                    None
                }
            } else {
                None
            },
            None => None,
        }
    } else {
        match skip_field_at(s, i) {
            Some(j) => if i < j < s.len() {
                if s[j] == 44u8 {
                    parse_jump_fields(s, j + 1, oat)
                } else if s[j] == 125u8 {
                    match oat {
                        Option::Some(at) => Some((PlayerAction::Jump { at }, j + 1)),
                        Option::None => None,
                    }
                } else {
                    None
                }
            } else {
                None
            },
            None => None,
        }
    }
}

/// The fields of a move record: the delta and the move identifier are both
/// required.
pub open spec fn parse_move_fields(s: Seq<u8>, i: int, od: Option<i64>, om: Option<u128>) -> Option<
    (PlayerAction, int),
>
    decreases s.len() - i,
{
    if !(0 <= i < s.len()) {
        None
    } else if s[i] == 125u8 {
        match (od, om) {
            (Option::Some(delta_x), Option::Some(id)) => Some(
                (PlayerAction::Move { delta_x, id }, i + 1),
            ),
            _ => None,
        }
    } else if kw_at(s, i, key_delta_x()) {
        match parse_i64_at(s, i + key_delta_x().len()) {
            Some((v, j)) => if i < j < s.len() {
                if s[j] == 44u8 {
                    parse_move_fields(s, j + 1, Some(v), om)
                } else if s[j] == 125u8 {
                    match om {
                        Option::Some(id) => Some((PlayerAction::Move { delta_x: v, id }, j + 1)),
                        Option::None => None,
                    }
                } else {
                    None
                }
            } else {
                None
            },
            None => None,
        }
    } else if kw_at(s, i, key_id()) {
        match parse_u128_at(s, i + key_id().len()) {
            Some((v, j)) => if i < j < s.len() {
                if s[j] == 44u8 {
                    parse_move_fields(s, j + 1, od, Some(v))
                } else if s[j] == 125u8 {
                    match od {
                        Option::Some(delta_x) => Some(
                            (PlayerAction::Move { delta_x, id: v }, j + 1),
                        ),
                        Option::None => None,
                    }
                } else {
                    None
                }
            } else {
                None
            },
            None => None,
        }
    } else {
        match skip_field_at(s, i) {
            Some(j) => if i < j < s.len() {
                if s[j] == 44u8 {
                    parse_move_fields(s, j + 1, od, om)
                } else if s[j] == 125u8 {
                    match (od, om) {
                        (Option::Some(delta_x), Option::Some(id)) => Some(
                            (PlayerAction::Move { delta_x, id }, j + 1),
                        ),
                        _ => None,
                    }
                } else {
                    None
                }
            } else {
                None
            },
            None => None,
        }
    }
}

/// A tagged player action: an object holding exactly one recognized tag,
/// possibly after unknown fields.
pub open spec fn parse_player_action_tag(s: Seq<u8>, i: int) -> Option<(PlayerAction, int)>
    decreases s.len() - i,
{
    if !(0 <= i < s.len()) {
        None
    } else if s[i] == 125u8 {
        None
    } else if kw_at(s, i, key_Jump()) {
        let j0 = i + key_Jump().len();
        if j0 < s.len() && s[j0] == 123u8 {
            match parse_jump_fields(s, j0 + 1, Option::None) {
                Some((pa, j)) => if i < j < s.len() && s[j] == 125u8 {
                    Some((pa, j + 1))
                } else {
                    None
                },
                None => None,
            }
        } else {
            None
        }
    } else if kw_at(s, i, key_Move()) {
        let j0 = i + key_Move().len();
        if j0 < s.len() && s[j0] == 123u8 {
            match parse_move_fields(s, j0 + 1, Option::None, Option::None) {
                Some((pa, j)) => if i < j < s.len() && s[j] == 125u8 {
                    Some((pa, j + 1))
                } else {
                    None
                },
                None => None,
            }
        } else {
            None
        }
    } else {
        match skip_field_at(s, i) {
            Some(j) => if i < j < s.len() && s[j] == 44u8 {
                parse_player_action_tag(s, j + 1)
            } else {
                None
            },
            None => None,
        }
    }
}

/// A player action at `i`.
pub open spec fn parse_player_action_at(s: Seq<u8>, i: int) -> Option<(PlayerAction, int)> {
    if 0 <= i < s.len() && s[i] == 123u8 {
        parse_player_action_tag(s, i + 1)
    } else {
        None
    }
}

/// The body of a `Player` action: the target id and the inner action are
/// both required.
pub open spec fn parse_player_body(
    s: Seq<u8>,
    i: int,
    oid: Option<usize>,
    oact: Option<PlayerAction>,
) -> Option<(Action, int)>
    decreases s.len() - i,
{
    if !(0 <= i < s.len()) {
        None
    } else if s[i] == 125u8 {
        match (oid, oact) {
            (Option::Some(id), Option::Some(action)) => Some((Action::Player { id, action }, i + 1)),
            _ => None,
        }
    } else if kw_at(s, i, key_id()) {
        match parse_usize_at(s, i + key_id().len()) {
            Some((v, j)) => if i < j < s.len() {
                if s[j] == 44u8 {
                    parse_player_body(s, j + 1, Some(v), oact)
                } else if s[j] == 125u8 {
                    match oact {
                        Option::Some(action) => Some((Action::Player { id: v, action }, j + 1)),
                        Option::None => None,
                    }
                } else {
                    None
                }
            } else {
                None
            },
            None => None,
        }
    } else if kw_at(s, i, key_action()) {
        match parse_player_action_at(s, i + key_action().len()) {
            Some((v, j)) => if i < j < s.len() {
                if s[j] == 44u8 {
                    parse_player_body(s, j + 1, oid, Some(v))
                } else if s[j] == 125u8 {
                    match oid {
                        Option::Some(id) => Some((Action::Player { id, action: v }, j + 1)),
                        Option::None => None,
                    }
                } else {
                    None
                }
            } else {
                None
            },
            None => None,
        }
    } else {
        match skip_field_at(s, i) {
            Some(j) => if i < j < s.len() {
                if s[j] == 44u8 {
                    parse_player_body(s, j + 1, oid, oact)
                } else if s[j] == 125u8 {
                    match (oid, oact) {
                        (Option::Some(id), Option::Some(action)) => Some(
                            (Action::Player { id, action }, j + 1),
                        ),
                        _ => None,
                    }
                } else {
                    None
                }
            } else {
                None
            },
            None => None,
        }
    }
}

/// A tagged action: `Join` or `Player`, possibly after unknown fields.
pub open spec fn parse_action_tag(s: Seq<u8>, i: int) -> Option<(Action, int)>
    decreases s.len() - i,
{
    if !(0 <= i < s.len()) {
        None
    } else if s[i] == 125u8 {
        None
    } else if kw_at(s, i, key_Join()) {
        let j0 = i + key_Join().len();
        if kw_at(s, j0, lit_null()) && j0 + 4 < s.len() && s[j0 + 4] == 125u8 {
            Some((Action::Join, j0 + 5))
        } else {
            None
        }
    } else if kw_at(s, i, key_Player()) {
        let j0 = i + key_Player().len();
        if j0 < s.len() && s[j0] == 123u8 {
            match parse_player_body(s, j0 + 1, Option::None, Option::None) {
                Some((a, j)) => if i < j < s.len() && s[j] == 125u8 {
                    Some((a, j + 1))
                } else {
                    None
                },
                None => None,
            }
        } else {
            None
        }
    } else {
        match skip_field_at(s, i) {
            Some(j) => if i < j < s.len() && s[j] == 44u8 {
                parse_action_tag(s, j + 1)
            } else {
                None
            },
            None => None,
        }
    }
}

/// A whole action record.
pub open spec fn parse_action_spec(s: Seq<u8>) -> Option<Action> {
    if s.len() > 0 && s[0] == 123u8 {
        match parse_action_tag(s, 1) {
            Some((a, j)) => if j == s.len() {
                Some(a)
            } else {
                None
            },
            None => None,
        }
    } else {
        None
    }
}

/// Executable mirror of [`parse_jump_fields`].
fn parse_jump_fields_exec(s: &Vec<u8>, i: usize, oat: Option<i64>) -> (r: Option<
    (PlayerAction, usize),
>)
    requires
        i <= s@.len(),
    ensures
        parse_jump_fields(s@, i as int, oat) == (match r {
            Option::Some((v, j)) => Option::Some((v, j as int)),
            Option::None => Option::None::<(PlayerAction, int)>,
        }),
        r matches Some((v, j)) ==> i < j <= s@.len(),
    decreases s@.len() - i,
{
    if i >= s.len() {
        None
    } else if s[i] == 125u8 {
        match oat {
            Some(at) => Some((PlayerAction::Jump { at }, i + 1)),
            None => None,
        }
    } else if at_key_at(s, i) {
        match parse_i64(s, i + 5) {
            Some((v, j)) => {
                if j < s.len() {
                    if s[j] == 44u8 {
                        parse_jump_fields_exec(s, j + 1, Some(v))
                    } else if s[j] == 125u8 {
                        Some((PlayerAction::Jump { at: v }, j + 1))
                    } else {
                        None
                    }
                } else {
                    None
                }
            },
            None => None,
        }
    } else {
        match skip_field(s, i) {
            Some(j) => {
                if j < s.len() {
                    if s[j] == 44u8 {
                        parse_jump_fields_exec(s, j + 1, oat)
                    } else if s[j] == 125u8 {
                        match oat {
                            Some(at) => Some((PlayerAction::Jump { at }, j + 1)),
                            None => None,
                        }
                    } else {
                        None
                    }
                } else {
                    None
                }
            },
            None => None,
        }
    }
}

/// Executable mirror of [`parse_move_fields`].
#[verifier::rlimit(60)]
fn parse_move_fields_exec(s: &Vec<u8>, i: usize, od: Option<i64>, om: Option<u128>) -> (r: Option<
    (PlayerAction, usize),
>)
    requires
        i <= s@.len(),
    ensures
        parse_move_fields(s@, i as int, od, om) == (match r {
            Option::Some((v, j)) => Option::Some((v, j as int)),
            Option::None => Option::None::<(PlayerAction, int)>,
        }),
        r matches Some((v, j)) ==> i < j <= s@.len(),
    decreases s@.len() - i,
{
    if i >= s.len() {
        None
    } else if s[i] == 125u8 {
        match (od, om) {
            (Some(delta_x), Some(id)) => Some((PlayerAction::Move { delta_x, id }, i + 1)),
            _ => None,
        }
    } else if at_key_delta_x(s, i) {
        match parse_i64(s, i + 10) {
            Some((v, j)) => {
                if j < s.len() {
                    if s[j] == 44u8 {
                        parse_move_fields_exec(s, j + 1, Some(v), om)
                    } else if s[j] == 125u8 {
                        match om {
                            Some(id) => Some((PlayerAction::Move { delta_x: v, id }, j + 1)),
                            None => None,
                        }
                    } else {
                        None
                    }
                } else {
                    None
                }
            },
            None => None,
        }
    } else if at_key_id(s, i) {
        match parse_u128(s, i + 5) {
            Some((v, j)) => {
                if j < s.len() {
                    if s[j] == 44u8 {
                        parse_move_fields_exec(s, j + 1, od, Some(v))
                    } else if s[j] == 125u8 {
                        match od {
                            Some(delta_x) => Some((PlayerAction::Move { delta_x, id: v }, j + 1)),
                            None => None,
                        }
                    } else {
                        None
                    }
                } else {
                    None
                }
            },
            None => None,
        }
    } else {
        match skip_field(s, i) {
            Some(j) => {
                if j < s.len() {
                    if s[j] == 44u8 {
                        parse_move_fields_exec(s, j + 1, od, om)
                    } else if s[j] == 125u8 {
                        match (od, om) {
                            (Some(delta_x), Some(id)) => Some(
                                (PlayerAction::Move { delta_x, id }, j + 1),
                            ),
                            _ => None,
                        }
                    } else {
                        None
                    }
                } else {
                    None
                }
            },
            None => None,
        }
    }
}

/// Executable mirror of [`parse_player_action_tag`].
fn parse_player_action_tag_exec(s: &Vec<u8>, i: usize) -> (r: Option<(PlayerAction, usize)>)
    requires
        i <= s@.len(),
    ensures
        parse_player_action_tag(s@, i as int) == (match r {
            Option::Some((v, j)) => Option::Some((v, j as int)),
            Option::None => Option::None::<(PlayerAction, int)>,
        }),
        r matches Some((v, j)) ==> i < j <= s@.len(),
    decreases s@.len() - i,
{
    if i >= s.len() {
        None
    } else if s[i] == 125u8 {
        None
    } else if at_key_Jump(s, i) {
        let j0 = i + 7;
        if j0 < s.len() && s[j0] == 123u8 {
            match parse_jump_fields_exec(s, j0 + 1, None) {
                Some((pa, j)) => {
                    if j < s.len() && s[j] == 125u8 {
                        Some((pa, j + 1))
                    } else {
                        None
                    }
                },
                None => None,
            }
        } else {
            None
        }
    } else if at_key_Move(s, i) {
        let j0 = i + 7;
        if j0 < s.len() && s[j0] == 123u8 {
            match parse_move_fields_exec(s, j0 + 1, None, None) {
                Some((pa, j)) => {
                    if j < s.len() && s[j] == 125u8 {
                        Some((pa, j + 1))
                    } else {
                        None
                    }
                },
                None => None,
            }
        } else {
            None
        }
    } else {
        match skip_field(s, i) {
            Some(j) => {
                if j < s.len() && s[j] == 44u8 {
                    parse_player_action_tag_exec(s, j + 1)
                } else {
                    None
                }
            },
            None => None,
        }
    }
}

/// Executable mirror of [`parse_player_body`].
#[verifier::rlimit(60)]
fn parse_player_body_exec(
    s: &Vec<u8>,
    i: usize,
    oid: Option<usize>,
    oact: Option<PlayerAction>,
) -> (r: Option<(Action, usize)>)
    requires
        i <= s@.len(),
    ensures
        parse_player_body(s@, i as int, oid, oact) == (match r {
            Option::Some((v, j)) => Option::Some((v, j as int)),
            Option::None => Option::None::<(Action, int)>,
        }),
        r matches Some((v, j)) ==> i < j <= s@.len(),
    decreases s@.len() - i,
{
    if i >= s.len() {
        None
    } else if s[i] == 125u8 {
        match (oid, oact) {
            (Some(id), Some(action)) => Some((Action::Player { id, action }, i + 1)),
            _ => None,
        }
    } else if at_key_id(s, i) {
        match parse_usize(s, i + 5) {
            Some((v, j)) => {
                if j < s.len() {
                    if s[j] == 44u8 {
                        parse_player_body_exec(s, j + 1, Some(v), oact)
                    } else if s[j] == 125u8 {
                        match oact {
                            Some(action) => Some((Action::Player { id: v, action }, j + 1)),
                            None => None,
                        }
                    } else {
                        None
                    }
                } else {
                    None
                }
            },
            None => None,
        }
    } else if at_key_action(s, i) {
        let j0 = i + 9;
        let inner: Option<(PlayerAction, usize)> = if j0 < s.len() && s[j0] == 123u8 {
            parse_player_action_tag_exec(s, j0 + 1)
        } else {
            None
        };
        match inner {
            Some((v, j)) => {
                if j < s.len() {
                    if s[j] == 44u8 {
                        parse_player_body_exec(s, j + 1, oid, Some(v))
                    } else if s[j] == 125u8 {
                        match oid {
                            Some(id) => Some((Action::Player { id, action: v }, j + 1)),
                            None => None,
                        }
                    } else {
                        None
                    }
                } else {
                    None
                }
            },
            None => None,
        }
    } else {
        match skip_field(s, i) {
            Some(j) => {
                if j < s.len() {
                    if s[j] == 44u8 {
                        parse_player_body_exec(s, j + 1, oid, oact)
                    } else if s[j] == 125u8 {
                        match (oid, oact) {
                            (Some(id), Some(action)) => Some((Action::Player { id, action }, j + 1)),
                            _ => None,
                        }
                    } else {
                        None
                    }
                } else {
                    None
                }
            },
            None => None,
        }
    }
}

/// Executable mirror of [`parse_action_tag`].
fn parse_action_tag_exec(s: &Vec<u8>, i: usize) -> (r: Option<(Action, usize)>)
    requires
        i <= s@.len(),
    ensures
        parse_action_tag(s@, i as int) == (match r {
            Option::Some((v, j)) => Option::Some((v, j as int)),
            Option::None => Option::None::<(Action, int)>,
        }),
        r matches Some((v, j)) ==> i < j <= s@.len(),
    decreases s@.len() - i,
{
    if i >= s.len() {
        None
    } else if s[i] == 125u8 {
        None
    } else if at_key_Join(s, i) {
        let j0 = i + 7;
        if at_lit_null(s, j0) {
            proof {
                assert(lit_null().len() == 4);
            }
            if j0 + 4 < s.len() && s[j0 + 4] == 125u8 {
                Some((Action::Join, j0 + 5))
            } else {
                None
            }
        } else {
            None
        }
    } else if at_key_Player(s, i) {
        let j0 = i + 9;
        if j0 < s.len() && s[j0] == 123u8 {
            match parse_player_body_exec(s, j0 + 1, None, None) {
                Some((a, j)) => {
                    if j < s.len() && s[j] == 125u8 {
                        Some((a, j + 1))
                    } else {
                        None
                    }
                },
                None => None,
            }
        } else {
            None
        }
    } else {
        match skip_field(s, i) {
            Some(j) => {
                if j < s.len() && s[j] == 44u8 {
                    parse_action_tag_exec(s, j + 1)
                } else {
                    None
                }
            },
            None => None,
        }
    }
}

/// Decode an action from its wire bytes.
pub fn parse_action(bytes: &Vec<u8>) -> (r: Option<Action>)
    ensures
        match parse_action_spec(bytes@) {
            Option::Some(a) => r == Some(a),
            Option::None => r is None,
        },
{
    if bytes.len() == 0 || bytes[0] != 123u8 {
        return None;
    }
    match parse_action_tag_exec(bytes, 1) {
        Some((a, j)) => {
            if j == bytes.len() {
                Some(a)
            } else {
                None
            }
        },
        None => None,
    }
}

/// Parsing the decimal encoding of an id yields the id back.
proof fn lemma_parse_decimal_usize(s: Seq<u8>, i: int, v: usize)
    requires
        0 <= i,
        i + dec_digits(v as nat).len() <= s.len(),
        forall|k: int| 0 <= k < dec_digits(v as nat).len() ==> s[i + k] == dec_digits(v as nat)[k],
        i + dec_digits(v as nat).len() == s.len() || !is_digit(s[i + dec_digits(v as nat).len()]),
    ensures
        parse_usize_at(s, i) == Some((v, i + dec_digits(v as nat).len())),
{
    lemma_parse_decimal(s, i, v as u128);
}

/// Parsing the decimal encoding of a signed value yields the value back.
proof fn lemma_parse_i64_enc(s: Seq<u8>, i: int, v: i64)
    requires
        0 <= i,
        i + enc_i64(v).len() <= s.len(),
        forall|k: int| 0 <= k < enc_i64(v).len() ==> s[i + k] == enc_i64(v)[k],
        i + enc_i64(v).len() == s.len() || !is_digit(s[i + enc_i64(v).len()]),
    ensures
        parse_i64_at(s, i) == Some((v, i + enc_i64(v).len())),
{
    if v < 0 {
        let m = (-(v as int)) as u128;
        let d = dec_digits(m as nat);
        lemma_dec_digits_shape(m as nat);
        assert(s[i + 0] == enc_i64(v)[0]);
        assert(s[i] == 45u8);
        assert forall|k: int| 0 <= k < d.len() implies s[i + 1 + k] == d[k] by {
            assert(s[i + (1 + k)] == enc_i64(v)[1 + k]);
        }
        lemma_parse_decimal(s, i + 1, m);
        assert(m <= 0x8000_0000_0000_0000u128);
        assert((-(m as int)) as i64 == v);
    } else {
        let d = dec_digits(v as nat);
        lemma_dec_digits_shape(v as nat);
        assert(s[i + 0] == enc_i64(v)[0]);
        assert(s[i] == d[0]);
        assert(is_digit(s[i]));
        assert(s[i] != 45u8);
        assert forall|k: int| 0 <= k < d.len() implies s[i + k] == d[k] by {
            assert(s[i + k] == enc_i64(v)[k]);
        }
        lemma_parse_decimal(s, i, v as u128);
    }
}

/// Decoding the canonical encoding of a join reply yields the reply back.
pub proof fn lemma_join_response_round_trip(player_id: usize)
    ensures
        parse_join_response_spec(enc_join_response(player_id)) == Some(player_id),
{
    let s = enc_join_response(player_id);
    let key = key_player_id();
    let d = dec_digits(player_id as nat);
    lemma_dec_digits_shape(player_id as nat);
    assert(s.len() == 1 + key.len() + d.len() + 1);
    assert(s[0] == 123u8);
    assert(s[1] == 34u8);
    assert(kw_at(s, 1, key)) by {
        assert forall|k: int| 0 <= k < key.len() implies s.subrange(1, 1 + key.len() as int)[k]
            == key[k] by {
            assert(s[1 + k] == key[k]);
        }
        assert(s.subrange(1, 1 + key.len() as int) =~= key);
    }
    let i0 = 1 + key.len() as int;
    assert forall|k: int| 0 <= k < d.len() implies s[i0 + k] == d[k] by {
        assert(s[i0 + k] == d[k]);
    }
    assert(s[i0 + d.len()] == 125u8);
    assert(!is_digit(125u8));
    lemma_parse_decimal_usize(s, i0, player_id);
    let j = i0 + d.len() as int;
    assert(parse_jr_fields(s, 1, Option::None) == Some((player_id, j + 1)));
    assert(j + 1 == s.len());
}

/// Two field keys differ, so matching one rules out the other.
proof fn lemma_kw_excludes(s: Seq<u8>, i: int, a: Seq<u8>, b: Seq<u8>, w: int)
    requires
        kw_at(s, i, a),
        0 <= w < a.len(),
        w < b.len(),
        a[w] != b[w],
    ensures
        !kw_at(s, i, b),
{
    if kw_at(s, i, b) {
        assert(s.subrange(i, i + a.len()) =~= a);
        assert(s.subrange(i, i + b.len()) =~= b);
        assert(s.subrange(i, i + a.len())[w] == s[i + w]);
        assert(s.subrange(i, i + b.len())[w] == s[i + w]);
        assert(false);
    }
}

/// The embedded bytes of a keyword match it.
proof fn lemma_kw_embedded(s: Seq<u8>, i: int, kw: Seq<u8>)
    requires
        0 <= i,
        i + kw.len() <= s.len(),
        forall|k: int| 0 <= k < kw.len() ==> s[i + k] == kw[k],
    ensures
        kw_at(s, i, kw),
{
    assert(s.subrange(i, i + kw.len()) =~= kw);
}

/// Decoding the canonical encoding of one player record yields the player
/// back: the record starts at `i` and is followed by a separator.
#[verifier::rlimit(100)]
proof fn lemma_parse_player_enc(s: Seq<u8>, i: int, p: Player)
    requires
        0 <= i,
        i + enc_player(p).len() <= s.len(),
        forall|k: int| 0 <= k < enc_player(p).len() ==> s[i + k] == enc_player(p)[k],
    ensures
        parse_player_at(s, i) == Some((p, i + enc_player(p).len())),
{
    let e = enc_player(p);
    let d_id = dec_digits(p.id as nat);
    let ex = enc_i64(p.x);
    let ej = enc_opt_jump(p.last_jump_at);
    lemma_dec_digits_shape(p.id as nat);

    let o_idk = 1int;
    let o_id = o_idk + key_id().len() as int;
    let o_c1 = o_id + d_id.len() as int;
    let o_xk = o_c1 + 1;
    let o_x = o_xk + key_x().len() as int;
    let o_c2 = o_x + ex.len() as int;
    let o_jk = o_c2 + 1;
    let o_j = o_jk + key_last_jump_at().len() as int;
    let o_end = o_j + ej.len() as int;
    assert(e.len() == o_end + 1);

    assert(s[i + 0] == e[0]);
    assert(s[i] == 123u8);

    // the id field
    assert forall|k: int| 0 <= k < key_id().len() implies s[i + o_idk + k] == key_id()[k] by {
        assert(s[i + (o_idk + k)] == e[o_idk + k]);
    }
    lemma_kw_embedded(s, i + o_idk, key_id());
    assert(s[i + o_idk] != 125u8);
    assert forall|k: int| 0 <= k < d_id.len() implies s[i + o_id + k] == d_id[k] by {
        assert(s[i + (o_id + k)] == e[o_id + k]);
    }
    assert(s[i + (o_c1)] == e[o_c1]);
    assert(s[i + o_c1] == 44u8);
    assert(!is_digit(44u8));
    lemma_parse_decimal_usize(s, i + o_id, p.id);
    assert(parse_usize_at(s, i + o_idk + key_id().len()) == Some((p.id, i + o_c1)));

    // the x field
    assert forall|k: int| 0 <= k < key_x().len() implies s[i + o_xk + k] == key_x()[k] by {
        assert(s[i + (o_xk + k)] == e[o_xk + k]);
    }
    lemma_kw_embedded(s, i + o_xk, key_x());
    assert(s[i + o_xk] != 125u8);
    lemma_kw_excludes(s, i + o_xk, key_x(), key_id(), 1);
    assert forall|k: int| 0 <= k < ex.len() implies s[i + o_x + k] == ex[k] by {
        assert(s[i + (o_x + k)] == e[o_x + k]);
    }
    assert(s[i + (o_c2)] == e[o_c2]);
    assert(s[i + o_c2] == 44u8);
    lemma_parse_i64_enc(s, i + o_x, p.x);
    assert(parse_i64_at(s, i + o_xk + key_x().len()) == Some((p.x, i + o_c2)));

    // the jump field
    assert forall|k: int| 0 <= k < key_last_jump_at().len() implies s[i + o_jk + k]
        == key_last_jump_at()[k] by {
        assert(s[i + (o_jk + k)] == e[o_jk + k]);
    }
    lemma_kw_embedded(s, i + o_jk, key_last_jump_at());
    assert(s[i + o_jk] != 125u8);
    lemma_kw_excludes(s, i + o_jk, key_last_jump_at(), key_id(), 1);
    lemma_kw_excludes(s, i + o_jk, key_last_jump_at(), key_x(), 1);
    assert forall|k: int| 0 <= k < ej.len() implies s[i + o_j + k] == ej[k] by {
        assert(s[i + (o_j + k)] == e[o_j + k]);
    }
    assert(s[i + (o_end)] == e[o_end]);
    assert(s[i + o_end] == 125u8);
    match p.last_jump_at {
        Option::None => {
            lemma_kw_embedded(s, i + o_j, lit_null());
            assert(parse_opt_jump_at(s, i + o_j) == Some((Option::None::<i64>, i + o_end)));
        },
        Option::Some(t) => {
            assert(!is_digit(125u8));
            lemma_parse_i64_enc(s, i + o_j, t);
            assert(!kw_at(s, i + o_j, lit_null())) by {
                if kw_at(s, i + o_j, lit_null()) {
                    assert(s.subrange(i + o_j, i + o_j + 4)[0] == s[i + o_j]);
                    assert(s[i + (o_j + 0)] == e[o_j]);
                    assert(ej[0] == 110u8);
                    if t < 0 {
                    } else {
                        lemma_dec_digits_shape(t as nat);
                        assert(is_digit(ej[0]));
                    }
                    assert(false);
                }
            }
            assert(parse_opt_jump_at(s, i + o_j) == Some((Option::Some(t), i + o_end)));
        },
    }

    // assemble the field walk
    assert(parse_player_fields(s, i + o_jk, Some(p.id), Some(p.x), Option::None) == Some(
        (p, i + o_end + 1),
    ));
    assert(parse_player_fields(s, i + o_xk, Some(p.id), Option::None, Option::None) == Some(
        (p, i + o_end + 1),
    ));
    assert(parse_player_fields(s, i + o_idk, Option::None, Option::None, Option::None) == Some(
        (p, i + o_end + 1),
    ));
    assert(parse_player_at(s, i) == Some((p, i + e.len())));
}

/// The roster encoding seen from the front: the first record, then a comma
/// and the rest.
proof fn lemma_enc_players_first(ps: Seq<Player>)
    requires
        ps.len() >= 1,
    ensures
        ps.len() == 1 ==> enc_players(ps) == enc_player(ps[0]),
        ps.len() > 1 ==> enc_players(ps) =~= enc_player(ps[0]) + seq![44u8] + enc_players(
            ps.drop_first(),
        ),
    decreases ps.len(),
{
    if ps.len() > 1 {
        lemma_enc_players_first(ps.drop_last());
        if ps.len() == 2 {
            assert(ps.drop_last()[0] == ps[0]);
            assert(ps.drop_first().len() == 1);
            assert(ps.drop_first()[0] == ps[1]);
            assert(enc_players(ps.drop_first()) == enc_player(ps[1]));
        } else {
            assert(ps.drop_last()[0] == ps[0]);
            assert(ps.drop_last().drop_first() =~= ps.drop_first().drop_last());
            assert(ps.drop_first().last() == ps.last());
            assert(enc_players(ps.drop_first()) =~= enc_players(ps.drop_first().drop_last())
                + seq![44u8] + enc_player(ps.last()));
        }
    }
}

/// Decoding an encoded roster, element by element.
proof fn lemma_parse_players_elems_enc(s: Seq<u8>, i: int, ps: Seq<Player>, acc: Seq<Player>)
    requires
        ps.len() >= 1,
        0 <= i,
        i + enc_players(ps).len() < s.len(),
        forall|k: int| 0 <= k < enc_players(ps).len() ==> s[i + k] == enc_players(ps)[k],
        s[i + enc_players(ps).len()] == 93u8,
    ensures
        parse_players_elems(s, i, acc) == Some((acc + ps, i + enc_players(ps).len() + 1)),
    decreases ps.len(),
{
    let e = enc_players(ps);
    let e0 = enc_player(ps[0]);
    lemma_enc_players_first(ps);
    assert forall|k: int| 0 <= k < e0.len() implies s[i + k] == e0[k] by {
        assert(s[i + k] == e[k]);
    }
    lemma_parse_player_enc(s, i, ps[0]);
    let j = i + e0.len() as int;
    if ps.len() == 1 {
        assert(s[j] == 93u8);
        assert(parse_players_elems(s, i, acc) == Some((acc.push(ps[0]), j + 1)));
        assert(acc.push(ps[0]) =~= acc + ps);
    } else {
        assert(s[i + (e0.len() as int)] == e[e0.len() as int]);
        assert(s[j] == 44u8);
        let rest = ps.drop_first();
        let er = enc_players(rest);
        assert forall|k: int| 0 <= k < er.len() implies s[j + 1 + k] == er[k] by {
            assert(s[i + (e0.len() + 1 + k)] == e[e0.len() + 1 + k]);
            assert(e[e0.len() + 1 + k] == er[k]);
        }
        assert(s[j + 1 + er.len()] == 93u8) by {
            assert(e.len() == e0.len() + 1 + er.len());
        }
        lemma_parse_players_elems_enc(s, j + 1, rest, acc.push(ps[0]));
        assert(acc.push(ps[0]) + rest =~= acc + ps);
        assert(parse_players_elems(s, i, acc) == parse_players_elems(s, j + 1, acc.push(ps[0])));
    }
}

/// The acknowledgement encoding seen from the front.
proof fn lemma_enc_acks_first(a: Seq<u128>)
    requires
        a.len() >= 1,
    ensures
        a.len() == 1 ==> enc_acks(a) == dec_digits(a[0] as nat),
        a.len() > 1 ==> enc_acks(a) =~= dec_digits(a[0] as nat) + seq![44u8] + enc_acks(
            a.drop_first(),
        ),
    decreases a.len(),
{
    if a.len() > 1 {
        lemma_enc_acks_first(a.drop_last());
        if a.len() == 2 {
            assert(a.drop_last()[0] == a[0]);
            assert(a.drop_first().len() == 1);
            assert(a.drop_first()[0] == a[1]);
        } else {
            assert(a.drop_last()[0] == a[0]);
            assert(a.drop_last().drop_first() =~= a.drop_first().drop_last());
            assert(a.drop_first().last() == a.last());
            assert(enc_acks(a.drop_first()) =~= enc_acks(a.drop_first().drop_last()) + seq![44u8]
                + dec_digits(a.last() as nat));
        }
    }
}

/// Decoding an encoded acknowledgement list, element by element.
proof fn lemma_parse_acks_elems_enc(s: Seq<u8>, i: int, a: Seq<u128>, acc: Seq<u128>)
    requires
        a.len() >= 1,
        0 <= i,
        i + enc_acks(a).len() < s.len(),
        forall|k: int| 0 <= k < enc_acks(a).len() ==> s[i + k] == enc_acks(a)[k],
        s[i + enc_acks(a).len()] == 93u8,
    ensures
        parse_acks_elems(s, i, acc) == Some((acc + a, i + enc_acks(a).len() + 1)),
    decreases a.len(),
{
    let e = enc_acks(a);
    let e0 = dec_digits(a[0] as nat);
    lemma_enc_acks_first(a);
    lemma_dec_digits_shape(a[0] as nat);
    assert forall|k: int| 0 <= k < e0.len() implies s[i + k] == e0[k] by {
        assert(s[i + k] == e[k]);
    }
    let j = i + e0.len() as int;
    if a.len() == 1 {
        assert(s[j] == 93u8);
        assert(!is_digit(93u8));
        lemma_parse_decimal(s, i, a[0]);
        assert(parse_acks_elems(s, i, acc) == Some((acc.push(a[0]), j + 1)));
        assert(acc.push(a[0]) =~= acc + a);
    } else {
        assert(s[i + (e0.len() as int)] == e[e0.len() as int]);
        assert(s[j] == 44u8);
        assert(!is_digit(44u8));
        lemma_parse_decimal(s, i, a[0]);
        let rest = a.drop_first();
        let er = enc_acks(rest);
        assert forall|k: int| 0 <= k < er.len() implies s[j + 1 + k] == er[k] by {
            assert(s[i + (e0.len() + 1 + k)] == e[e0.len() + 1 + k]);
            assert(e[e0.len() + 1 + k] == er[k]);
        }
        assert(s[j + 1 + er.len()] == 93u8) by {
            assert(e.len() == e0.len() + 1 + er.len());
        }
        lemma_parse_acks_elems_enc(s, j + 1, rest, acc.push(a[0]));
        assert(acc.push(a[0]) + rest =~= acc + a);
    }
}

/// Decoding an encoded roster array in brackets.
#[verifier::rlimit(100)]
proof fn lemma_parse_players_arr_enc(s: Seq<u8>, i: int, ps: Seq<Player>)
    requires
        0 <= i,
        i + 2 + enc_players(ps).len() <= s.len(),
        s[i] == 91u8,
        forall|k: int| 0 <= k < enc_players(ps).len() ==> s[i + 1 + k] == enc_players(ps)[k],
        s[i + 1 + enc_players(ps).len()] == 93u8,
    ensures
        parse_players_arr(s, i) == Some((ps, i + 2 + enc_players(ps).len())),
{
    if ps.len() == 0 {
        assert(enc_players(ps).len() == 0);
        assert(s[i + 1] == 93u8);
        assert(Seq::<Player>::empty() =~= ps);
    } else {
        lemma_enc_players_first(ps);
        assert(s[i + 1 + 0] == enc_players(ps)[0]);
        assert(enc_players(ps)[0] == enc_player(ps[0])[0]);
        assert(s[i + 1] == 123u8);
        lemma_parse_players_elems_enc(s, i + 1, ps, Seq::empty());
        assert(Seq::<Player>::empty() + ps =~= ps);
    }
}

/// Decoding an encoded acknowledgement array in brackets.
#[verifier::rlimit(100)]
proof fn lemma_parse_acks_arr_enc(s: Seq<u8>, i: int, a: Seq<u128>)
    requires
        0 <= i,
        i + 2 + enc_acks(a).len() <= s.len(),
        s[i] == 91u8,
        forall|k: int| 0 <= k < enc_acks(a).len() ==> s[i + 1 + k] == enc_acks(a)[k],
        s[i + 1 + enc_acks(a).len()] == 93u8,
    ensures
        parse_acks_arr(s, i) == Some((a, i + 2 + enc_acks(a).len())),
{
    if a.len() == 0 {
        assert(enc_acks(a).len() == 0);
        assert(s[i + 1] == 93u8);
        assert(Seq::<u128>::empty() =~= a);
    } else {
        lemma_enc_acks_first(a);
        lemma_dec_digits_shape(a[0] as nat);
        assert(s[i + 1 + 0] == enc_acks(a)[0]);
        assert(enc_acks(a)[0] == dec_digits(a[0] as nat)[0]);
        assert(is_digit(s[i + 1]));
        assert(s[i + 1] != 93u8);
        lemma_parse_acks_elems_enc(s, i + 1, a, Seq::empty());
        assert(Seq::<u128>::empty() + a =~= a);
    }
}

/// Decoding the canonical encoding of a snapshot yields the same roster,
/// timestamp and acknowledgements back.
#[verifier::rlimit(100)]
#[verifier::spinoff_prover]
pub proof fn lemma_snapshot_round_trip(players: Seq<Player>, timestamp: i64, acks: Seq<u128>)
    ensures
        parse_snapshot_spec(enc_snapshot(players, timestamp, acks)) == Some(
            (players, timestamp, acks),
        ),
{
    let s = enc_snapshot(players, timestamp, acks);
    let head = enc_snapshot_head(players);
    let tail = enc_snapshot_tail(timestamp, acks);
    let hl = head.len() as int;
    let ep = enc_players(players);
    let et = enc_i64(timestamp);
    let ea = enc_acks(acks);

    let o_pk = 1int;
    let o_arr = o_pk + key_players().len() as int;
    let o_p = o_arr + 1;
    let o_close = o_p + ep.len() as int;
    let o_tk = o_close + 2;
    let o_t = o_tk + key_timestamp().len() as int;
    let o_c2 = o_t + et.len() as int;
    let o_ak = o_c2 + 1;
    let o_arr2 = o_ak + key_acknowledged().len() as int;
    let o_a = o_arr2 + 1;
    let o_close2 = o_a + ea.len() as int;

    assert(hl == o_tk);
    assert(s.len() == o_close2 + 2);

    // the roster field
    assert(s[0] == head[0]);
    assert(s[0] == 123u8);
    assert forall|k: int| 0 <= k < key_players().len() implies s[o_pk + k] == key_players()[k] by {
        assert(s[o_pk + k] == head[o_pk + k]);
    }
    lemma_kw_embedded(s, o_pk, key_players());
    assert(s[o_arr] == head[o_arr]);
    assert(s[o_arr] == 91u8);
    assert forall|k: int| 0 <= k < ep.len() implies s[o_arr + 1 + k] == ep[k] by {
        assert(s[o_p + k] == head[o_p + k]);
    }
    assert(s[o_close] == head[o_close]);
    assert(s[o_close] == 93u8);
    lemma_parse_players_arr_enc(s, o_arr, players);
    assert(s[o_close + 1] == head[o_close + 1]);
    assert(s[o_close + 1] == 44u8);

    // the timestamp field
    assert forall|k: int| 0 <= k < key_timestamp().len() implies s[o_tk + k]
        == key_timestamp()[k] by {
        assert(s[hl + k] == tail[k]);
    }
    lemma_kw_embedded(s, o_tk, key_timestamp());
    lemma_kw_excludes(s, o_tk, key_timestamp(), key_players(), 1);
    assert forall|k: int| 0 <= k < et.len() implies s[o_t + k] == et[k] by {
        assert(s[hl + (o_t - o_tk + k)] == tail[o_t - o_tk + k]);
    }
    assert(s[hl + (o_c2 - o_tk)] == tail[o_c2 - o_tk]);
    assert(s[o_c2] == 44u8);
    assert(!is_digit(44u8));
    lemma_parse_i64_enc(s, o_t, timestamp);

    // the acknowledgement field
    assert forall|k: int| 0 <= k < key_acknowledged().len() implies s[o_ak + k]
        == key_acknowledged()[k] by {
        assert(s[hl + (o_ak - o_tk + k)] == tail[o_ak - o_tk + k]);
    }
    lemma_kw_embedded(s, o_ak, key_acknowledged());
    lemma_kw_excludes(s, o_ak, key_acknowledged(), key_players(), 1);
    lemma_kw_excludes(s, o_ak, key_acknowledged(), key_timestamp(), 1);
    assert(s[hl + (o_arr2 - o_tk)] == tail[o_arr2 - o_tk]);
    assert(s[o_arr2] == 91u8);
    assert forall|k: int| 0 <= k < ea.len() implies s[o_arr2 + 1 + k] == ea[k] by {
        assert(s[hl + (o_a - o_tk + k)] == tail[o_a - o_tk + k]);
    }
    assert(s[hl + (o_close2 - o_tk)] == tail[o_close2 - o_tk]);
    assert(s[o_close2] == 93u8);
    lemma_parse_acks_arr_enc(s, o_arr2, acks);
    assert(s[hl + (o_close2 + 1 - o_tk)] == tail[o_close2 + 1 - o_tk]);
    assert(s[o_close2 + 1] == 125u8);

    lemma_snapshot_fields_walk(s, o_pk, players, timestamp, acks);
}

/// The field walk of an encoded snapshot, over byte facts established by the
/// caller.
#[verifier::rlimit(100)]
proof fn lemma_snapshot_fields_walk(
    s: Seq<u8>,
    o_pk: int,
    players: Seq<Player>,
    timestamp: i64,
    acks: Seq<u128>,
)
    requires
        0 <= o_pk,
        ({
            let o_arr = o_pk + key_players().len() as int;
            let o_close = o_arr + 1 + enc_players(players).len() as int;
            let o_tk = o_close + 2;
            let o_t = o_tk + key_timestamp().len() as int;
            let o_c2 = o_t + enc_i64(timestamp).len() as int;
            let o_ak = o_c2 + 1;
            let o_arr2 = o_ak + key_acknowledged().len() as int;
            let o_close2 = o_arr2 + 1 + enc_acks(acks).len() as int;
            &&& s.len() == o_close2 + 2
            &&& kw_at(s, o_pk, key_players())
            &&& s[o_pk] != 125u8
            &&& parse_players_arr(s, o_arr) == Some((players, o_close + 1))
            &&& s[o_close + 1] == 44u8
            &&& kw_at(s, o_tk, key_timestamp())
            &&& s[o_tk] != 125u8
            &&& !kw_at(s, o_tk, key_players())
            &&& parse_i64_at(s, o_t) == Some((timestamp, o_c2))
            &&& s[o_c2] == 44u8
            &&& kw_at(s, o_ak, key_acknowledged())
            &&& s[o_ak] != 125u8
            &&& !kw_at(s, o_ak, key_players())
            &&& !kw_at(s, o_ak, key_timestamp())
            &&& parse_acks_arr(s, o_arr2) == Some((acks, o_close2 + 1))
            &&& s[o_close2 + 1] == 125u8
        }),
    ensures
        parse_snapshot_fields(s, o_pk, Option::None, Option::None, Option::None) == Some(
            (players, timestamp, acks, s.len() as int),
        ),
{
    let o_arr = o_pk + key_players().len() as int;
    let o_close = o_arr + 1 + enc_players(players).len() as int;
    let o_tk = o_close + 2;
    let o_t = o_tk + key_timestamp().len() as int;
    let o_c2 = o_t + enc_i64(timestamp).len() as int;
    let o_ak = o_c2 + 1;
    let o_arr2 = o_ak + key_acknowledged().len() as int;
    let o_close2 = o_arr2 + 1 + enc_acks(acks).len() as int;
    assert(parse_snapshot_fields(s, o_ak, Some(players), Some(timestamp), Option::None) == Some(
        (players, timestamp, acks, o_close2 + 2),
    ));
    assert(parse_snapshot_fields(s, o_tk, Some(players), Option::None, Option::None) == Some(
        (players, timestamp, acks, o_close2 + 2),
    ));
    assert(parse_snapshot_fields(s, o_pk, Option::None, Option::None, Option::None) == Some(
        (players, timestamp, acks, o_close2 + 2),
    ));
}

/// Decoding the canonical encoding of a player action yields it back.
#[verifier::rlimit(100)]
proof fn lemma_parse_player_action_enc(s: Seq<u8>, i: int, a: PlayerAction)
    requires
        0 <= i,
        i + enc_player_action(a).len() <= s.len(),
        forall|k: int| 0 <= k < enc_player_action(a).len() ==> s[i + k] == enc_player_action(a)[k],
    ensures
        parse_player_action_at(s, i) == Some((a, i + enc_player_action(a).len())),
{
    let e = enc_player_action(a);
    assert(s[i + 0] == e[0]);
    assert(s[i] == 123u8);
    match a {
        PlayerAction::Jump { at } => {
            let o_tag = 1int;
            let o_open = o_tag + key_Jump().len() as int;
            let o_atk = o_open + 1;
            let o_at = o_atk + key_at().len() as int;
            let o_close = o_at + enc_i64(at).len() as int;
            assert(e.len() == o_close + 2);
            assert forall|k: int| 0 <= k < key_Jump().len() implies s[i + o_tag + k]
                == key_Jump()[k] by {
                assert(s[i + (o_tag + k)] == e[o_tag + k]);
            }
            lemma_kw_embedded(s, i + o_tag, key_Jump());
            assert(s[i + o_tag] != 125u8);
            assert(s[i + (o_open)] == e[o_open]);
            assert(s[i + o_open] == 123u8);
            assert forall|k: int| 0 <= k < key_at().len() implies s[i + o_atk + k]
                == key_at()[k] by {
                assert(s[i + (o_atk + k)] == e[o_atk + k]);
            }
            lemma_kw_embedded(s, i + o_atk, key_at());
            assert(s[i + o_atk] != 125u8);
            assert forall|k: int| 0 <= k < enc_i64(at).len() implies s[i + o_at + k] == enc_i64(
                at,
            )[k] by {
                assert(s[i + (o_at + k)] == e[o_at + k]);
            }
            assert(s[i + (o_close)] == e[o_close]);
            assert(s[i + o_close] == 125u8);
            assert(!is_digit(125u8));
            lemma_parse_i64_enc(s, i + o_at, at);
            assert(parse_jump_fields(s, i + o_atk, Option::None) == Some(
                (PlayerAction::Jump { at }, i + o_close + 1),
            ));
            assert(s[i + (o_close + 1)] == e[o_close + 1]);
            assert(s[i + o_close + 1] == 125u8);
        },
        PlayerAction::Move { delta_x, id } => {
            let d_id = dec_digits(id as nat);
            lemma_dec_digits_shape(id as nat);
            let o_tag = 1int;
            let o_open = o_tag + key_Move().len() as int;
            let o_dk = o_open + 1;
            let o_d = o_dk + key_delta_x().len() as int;
            let o_c1 = o_d + enc_i64(delta_x).len() as int;
            let o_ik = o_c1 + 1;
            let o_i = o_ik + key_id().len() as int;
            let o_close = o_i + d_id.len() as int;
            assert(e.len() == o_close + 2);
            assert forall|k: int| 0 <= k < key_Move().len() implies s[i + o_tag + k]
                == key_Move()[k] by {
                assert(s[i + (o_tag + k)] == e[o_tag + k]);
            }
            lemma_kw_embedded(s, i + o_tag, key_Move());
            assert(s[i + o_tag] != 125u8);
            lemma_kw_excludes(s, i + o_tag, key_Move(), key_Jump(), 1);
            assert(s[i + (o_open)] == e[o_open]);
            assert(s[i + o_open] == 123u8);
            assert forall|k: int| 0 <= k < key_delta_x().len() implies s[i + o_dk + k]
                == key_delta_x()[k] by {
                assert(s[i + (o_dk + k)] == e[o_dk + k]);
            }
            lemma_kw_embedded(s, i + o_dk, key_delta_x());
            assert(s[i + o_dk] != 125u8);
            assert forall|k: int| 0 <= k < enc_i64(delta_x).len() implies s[i + o_d + k]
                == enc_i64(delta_x)[k] by {
                assert(s[i + (o_d + k)] == e[o_d + k]);
            }
            assert(s[i + (o_c1)] == e[o_c1]);
            assert(s[i + o_c1] == 44u8);
            assert(!is_digit(44u8));
            lemma_parse_i64_enc(s, i + o_d, delta_x);
            assert forall|k: int| 0 <= k < key_id().len() implies s[i + o_ik + k]
                == key_id()[k] by {
                assert(s[i + (o_ik + k)] == e[o_ik + k]);
            }
            lemma_kw_embedded(s, i + o_ik, key_id());
            assert(s[i + o_ik] != 125u8);
            lemma_kw_excludes(s, i + o_ik, key_id(), key_delta_x(), 1);
            assert forall|k: int| 0 <= k < d_id.len() implies s[i + o_i + k] == d_id[k] by {
                assert(s[i + (o_i + k)] == e[o_i + k]);
            }
            assert(s[i + (o_close)] == e[o_close]);
            assert(s[i + o_close] == 125u8);
            lemma_parse_decimal(s, i + o_i, id);
            assert(parse_move_fields(s, i + o_ik, Some(delta_x), Option::None) == Some(
                (PlayerAction::Move { delta_x, id }, i + o_close + 1),
            ));
            assert(parse_move_fields(s, i + o_dk, Option::None, Option::None) == Some(
                (PlayerAction::Move { delta_x, id }, i + o_close + 1),
            ));
            assert(s[i + (o_close + 1)] == e[o_close + 1]);
            assert(s[i + o_close + 1] == 125u8);
        },
    }
}

/// Decoding the canonical encoding of an action yields the action back.
#[verifier::rlimit(100)]
pub proof fn lemma_action_round_trip(a: Action)
    ensures
        parse_action_spec(enc_action(a)) == Some(a),
{
    let s = enc_action(a);
    assert(s[0] == 123u8);
    match a {
        Action::Player { id, action } => {
            lemma_action_player_walk(id, action);
            return ;
        },
        Action::Join => {},
    }
    match a {
        Action::Join => {
            let o_tag = 1int;
            let o_null = o_tag + key_Join().len() as int;
            assert(s.len() == o_null + 5);
            assert forall|k: int| 0 <= k < key_Join().len() implies s[o_tag + k]
                == key_Join()[k] by {
                assert(s[o_tag + k] == s[o_tag + k]);
            }
            lemma_kw_embedded(s, o_tag, key_Join());
            assert(s[o_tag] != 125u8);
            assert forall|k: int| 0 <= k < 4 implies s[o_null + k] == lit_null()[k] by {
                assert(s[o_null + k] == s[o_null + k]);
            }
            lemma_kw_embedded(s, o_null, lit_null());
            assert(s[o_null + 4] == 125u8);
        },
        Action::Player { .. } => {
            assert(false);
        },
    }
}

/// The byte-by-byte field walk of an encoded `Player` action.
#[verifier::rlimit(100)]
#[verifier::spinoff_prover]
proof fn lemma_action_player_walk(id: usize, action: PlayerAction)
    ensures
        parse_action_spec(enc_action(Action::Player { id, action })) == Some(
            Action::Player { id, action },
        ),
{
    let a = Action::Player { id, action };
    let s = enc_action(a);
    assert(s[0] == 123u8);
    {
        {
            let d_id = dec_digits(id as nat);
            lemma_dec_digits_shape(id as nat);
            let ea = enc_player_action(action);
            let o_tag = 1int;
            let o_open = o_tag + key_Player().len() as int;
            let o_ik = o_open + 1;
            let o_i = o_ik + key_id().len() as int;
            let o_c1 = o_i + d_id.len() as int;
            let o_ak = o_c1 + 1;
            let o_a = o_ak + key_action().len() as int;
            let o_close = o_a + ea.len() as int;
            assert(s.len() == o_close + 2);
            assert forall|k: int| 0 <= k < key_Player().len() implies s[o_tag + k]
                == key_Player()[k] by {
                assert(s[o_tag + k] == s[o_tag + k]);
            }
            lemma_kw_embedded(s, o_tag, key_Player());
            assert(s[o_tag] != 125u8);
            lemma_kw_excludes(s, o_tag, key_Player(), key_Join(), 1);
            assert(s[o_open] == 123u8);
            assert forall|k: int| 0 <= k < key_id().len() implies s[o_ik + k] == key_id()[k] by {
                assert(s[o_ik + k] == s[o_ik + k]);
            }
            lemma_kw_embedded(s, o_ik, key_id());
            assert(s[o_ik] != 125u8);
            assert forall|k: int| 0 <= k < d_id.len() implies s[o_i + k] == d_id[k] by {
                assert(s[o_i + k] == s[o_i + k]);
            }
            assert(s[o_c1] == 44u8);
            assert(!is_digit(44u8));
            lemma_parse_decimal_usize(s, o_i, id);
            assert forall|k: int| 0 <= k < key_action().len() implies s[o_ak + k]
                == key_action()[k] by {
                assert(s[o_ak + k] == s[o_ak + k]);
            }
            lemma_kw_embedded(s, o_ak, key_action());
            assert(s[o_ak] != 125u8);
            lemma_kw_excludes(s, o_ak, key_action(), key_id(), 1);
            assert forall|k: int| 0 <= k < ea.len() implies s[o_a + k] == ea[k] by {
                assert(s[o_a + k] == s[o_a + k]);
            }
            lemma_parse_player_action_enc(s, o_a, action);
            assert(s[o_close] == 125u8);
            assert(parse_player_body(s, o_ak, Some(id), Option::None) == Some(
                (Action::Player { id, action }, o_close + 1),
            ));
            assert(parse_player_body(s, o_ik, Option::None, Option::None) == Some(
                (Action::Player { id, action }, o_close + 1),
            ));
            assert(s[o_close + 1] == 125u8);
            assert(parse_action_tag(s, 1) == Some((a, o_close + 2)));
            assert(o_close + 2 == s.len());
        }
    }
}

} // verus!
