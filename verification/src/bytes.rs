//! Little-endian numbers in byte sequences.

use vstd::prelude::*;

verus! {

/// The lowest `n` bytes of a number, least significant first.
pub open spec fn le_bytes(x: nat, n: nat) -> Seq<u8>
    decreases n,
{
    if n == 0 {
        Seq::empty()
    } else {
        seq![(x % 256) as u8] + le_bytes(x / 256, (n - 1) as nat)
    }
}

/// The number that little-endian bytes stand for.
pub open spec fn le_value(s: Seq<u8>) -> nat
    decreases s.len(),
{
    if s.len() == 0 {
        0
    } else {
        s[0] as nat + 256 * le_value(s.drop_first())
    }
}

/// 256 to the power of `n`.
pub open spec fn power256(n: nat) -> nat
    decreases n,
{
    if n == 0 {
        1
    } else {
        256 * power256((n - 1) as nat)
    }
}

/// Writing and reading back a number that fits gives the number.
pub proof fn lemma_le_round_trip(x: nat, n: nat)
    requires
        x < power256(n),
    ensures
        le_bytes(x, n).len() == n,
        le_value(le_bytes(x, n)) == x,
    decreases n,
{
    if n > 0 {
        let m = (n - 1) as nat;
        assert(x / 256 < power256(m)) by (nonlinear_arith)
            requires
                x < 256 * power256(m),
        ;
        lemma_le_round_trip(x / 256, m);
        assert(le_bytes(x, n).drop_first() =~= le_bytes(x / 256, m));
    }
}

/// A number always takes the asked number of bytes.
pub proof fn lemma_le_len(x: nat, n: nat)
    ensures
        le_bytes(x, n).len() == n,
    decreases n,
{
    if n > 0 {
        lemma_le_len(x / 256, (n - 1) as nat);
    }
}

/// The powers that the fixed-width numbers are below.
pub proof fn lemma_power256()
    ensures
        power256(4) == 0x1_0000_0000,
        power256(8) == 0x1_0000_0000_0000_0000,
        power256(16) == 0x1_0000_0000_0000_0000_0000_0000_0000_0000,
{
    reveal_with_fuel(power256, 17);
}

/// Append the lowest `n` bytes of `x`, least significant first.
pub fn push_le(out: &mut Vec<u8>, x: u128, n: usize)
    ensures
        final(out)@ == old(out)@ + le_bytes(x as nat, n as nat),
{
    let ghost start = out@;
    let mut rest: u128 = x;
    let mut left: usize = n;
    while left > 0
        invariant
            start + le_bytes(x as nat, n as nat) == out@ + le_bytes(rest as nat, left as nat),
        decreases left,
    {
        let ghost before = out@;
        let b: u8 = (rest % 256) as u8;
        out.push(b);
        proof {
            assert(before + (seq![b] + le_bytes((rest / 256) as nat, (left - 1) as nat))
                =~= out@ + le_bytes((rest / 256) as nat, (left - 1) as nat));
        }
        rest = rest / 256;
        left = left - 1;
    }
    proof {
        assert(out@ + le_bytes(rest as nat, 0) =~= out@);
    }
}

/// Append every byte of a slice.
pub fn push_bytes(out: &mut Vec<u8>, more: &[u8])
    ensures
        final(out)@ == old(out)@ + more@,
{
    out.extend_from_slice(more);
    proof {
        assert(out@ =~= old(out)@ + more@);
    }
}

/// The first byte counts ones, the second 256s, and so on.
pub proof fn law_four_bytes(x: nat)
    requires
        x < 0x1_0000_0000,
    ensures
        ({
            let b = le_bytes(x, 4);
            &&& b.len() == 4
            &&& b[0] + 0x100 * b[1] + 0x1_0000 * b[2] + 0x100_0000 * b[3] == x
        }),
{
    reveal_with_fuel(le_bytes, 5);
}

/// Eight bytes are four for the low half of a number and four for its high
/// half.
pub proof fn law_eight_bytes(low: nat, high: nat)
    requires
        low < 0x1_0000_0000,
        high < 0x1_0000_0000,
    ensures
        le_bytes(low + 0x1_0000_0000 * high, 8) == le_bytes(low, 4) + le_bytes(high, 4),
{
    reveal_with_fuel(le_bytes, 9);
}

} // verus!
