//! Unsigned decimal numbers: reading them, writing them, and that the two agree.
use crate::lexical::{
    byte_at, digit, has_at, lemma_run_end_is, outcome, run_end, Failure, Fault, ParseError,
};
use vstd::prelude::*;

verus! {

/// The number that the decimal digits from `from` up to `to` write.
pub open spec fn digits_value(s: Seq<u8>, from: int, to: int) -> nat
    decreases to - from,
{
    if to <= from {
        0
    } else {
        digits_value(s, from, to - 1) * 10 + (s[to - 1] - 0x30) as nat
    }
}

/// Reads an unsigned decimal number: all the digits that stand at `pos`, which have to be one at
/// least and to write a number below 2^64. Leading zeros count for nothing.
pub open spec fn unsigned_at(s: Seq<u8>, pos: int) -> Result<(int, u64), Failure> {
    let end = run_end(s, pos, digit());
    if end == pos {
        Err(Failure { fault: Fault::Digit, at: pos })
    } else if digits_value(s, pos, end) > u64::MAX {
        Err(Failure { fault: Fault::Overflow, at: pos })
    } else {
        Ok((end, digits_value(s, pos, end) as u64))
    }
}

/// The decimal digits of `n`, without leading zeros.
pub open spec fn decimal(n: nat) -> Seq<u8>
    decreases n,
{
    if n < 10 {
        seq![(0x30 + n) as u8]
    } else {
        decimal(n / 10).push((0x30 + n % 10) as u8)
    }
}

/// Reads an unsigned decimal number.
pub fn parse_u64(input: &[u8], pos: usize) -> (r: Result<(usize, u64), ParseError>)
    ensures
        outcome(r) == unsigned_at(input@, pos as int),
{
    let mut i: usize = pos;
    let mut value: u64 = 0;
    let mut fits: bool = true;
    while i < input.len() && 0x30 <= input[i] && input[i] <= 0x39
        invariant
            pos <= i,
            pos <= input@.len() ==> i <= input@.len(),
            run_end(input@, pos as int, digit()) == run_end(input@, i as int, digit()),
            forall|j: int| pos <= j < i ==> 0x30 <= #[trigger] input@[j] <= 0x39,
            fits ==> value == digits_value(input@, pos as int, i as int),
            !fits ==> digits_value(input@, pos as int, i as int) > u64::MAX,
        decreases input@.len() - i,
    {
        let d: u64 = (input[i] - 0x30) as u64;
        if fits && value <= (u64::MAX - d) / 10 {
            value = value * 10 + d;
        } else {
            fits = false;
        }
        i += 1;
    }
    if i == pos {
        Err(ParseError { fault: Fault::Digit, at: pos })
    } else if fits {
        Ok((i, value))
    } else {
        Err(ParseError { fault: Fault::Overflow, at: pos })
    }
}

/// The digits of a number are digits, and there is one at least.
pub proof fn lemma_decimal_digits(n: nat)
    ensures
        decimal(n).len() >= 1,
        forall|j: int| 0 <= j < decimal(n).len() ==> 0x30 <= #[trigger] decimal(n)[j] <= 0x39,
    decreases n,
{
    if n >= 10 {
        lemma_decimal_digits(n / 10);
    }
}

/// The digits of a number write that number.
pub proof fn lemma_decimal_value(s: Seq<u8>, pos: int, n: nat)
    requires
        has_at(s, pos, decimal(n)),
    ensures
        digits_value(s, pos, pos + decimal(n).len()) == n,
    decreases n,
{
    let word = decimal(n);
    let len = word.len() as int;
    lemma_decimal_digits(n);
    assert(s[pos + len - 1] == s.subrange(pos, pos + len)[len - 1]);
    if n < 10 {
        assert(digits_value(s, pos, pos) == 0);
    } else {
        let head = decimal(n / 10);
        assert(s.subrange(pos, pos + head.len()) =~= head) by {
            assert forall|j: int| 0 <= j < head.len() implies s.subrange(pos, pos + head.len())[j]
                == head[j] by {
                assert(s[pos + j] == s.subrange(pos, pos + len)[j]);
            }
        }
        lemma_decimal_value(s, pos, n / 10);
    }
}

/// Writing then reading: where the digits of `n` stand at `pos` and no digit follows them,
/// reading a number there gives `n` and stops behind them.
pub proof fn lemma_decimal_round_trip(s: Seq<u8>, pos: int, n: u64)
    requires
        has_at(s, pos, decimal(n as nat)),
        byte_at(s, pos + decimal(n as nat).len()) matches Some(b) ==> !(0x30 <= b <= 0x39),
    ensures
        unsigned_at(s, pos) == Ok::<(int, u64), Failure>((pos + decimal(n as nat).len(), n)),
{
    let word = decimal(n as nat);
    let end = pos + word.len();
    lemma_decimal_digits(n as nat);
    assert forall|j: int| pos <= j < end implies digit()(#[trigger] s[j]) by {
        assert(s[j] == s.subrange(pos, end)[j - pos]);
    }
    lemma_run_end_is(s, pos, end, digit());
    lemma_decimal_value(s, pos, n as nat);
}

/// Appends the decimal digits of `n` to `sink`.
pub fn push_decimal(sink: &mut Vec<u8>, n: u64)
    ensures
        final(sink)@ == old(sink)@ + decimal(n as nat),
    decreases n,
{
    if n < 10 {
        sink.push(0x30 + n as u8);
        assert(sink@ =~= old(sink)@ + decimal(n as nat));
    } else {
        push_decimal(sink, n / 10);
        sink.push(0x30 + (n % 10) as u8);
        assert(sink@ =~= old(sink)@ + decimal(n as nat));
    }
}

} // verus!
