//! How numbers are laid out in user memory: least significant byte first.
use vstd::prelude::*;

verus! {

/// The `width` low bytes of `value`, least significant first.
pub open spec fn le_bytes(value: nat, width: nat) -> Seq<u8>
    decreases width,
{
    if width == 0 {
        Seq::empty()
    } else {
        seq![(value % 256) as u8] + le_bytes(value / 256, (width - 1) as nat)
    }
}

/// The number that `bytes` spell, least significant byte first.
pub open spec fn le_value(bytes: Seq<u8>) -> nat
    decreases bytes.len(),
{
    if bytes.len() == 0 {
        0
    } else {
        bytes[0] as nat + 256 * le_value(bytes.skip(1))
    }
}

/// `width` bytes are `width` bytes.
pub proof fn lemma_le_bytes_len(value: nat, width: nat)
    ensures
        le_bytes(value, width).len() == width,
    decreases width,
{
    if width > 0 {
        lemma_le_bytes_len(value / 256, (width - 1) as nat);
    }
}

/// Reading back what was laid out gives the number again, as far as it
/// fits in `width` bytes.
pub proof fn lemma_le_round_trip(value: nat, width: nat)
    ensures
        le_value(le_bytes(value, width)) == value % vstd::arithmetic::power::pow(256, width) as nat,
    decreases width,
{
    vstd::arithmetic::power::lemma_pow0(256);
    if width == 0 {
    } else {
        let rest = le_bytes(value / 256, (width - 1) as nat);
        let all = le_bytes(value, width);
        assert(all.skip(1) =~= rest);
        lemma_le_round_trip(value / 256, (width - 1) as nat);
        let p = vstd::arithmetic::power::pow(256, (width - 1) as nat);
        vstd::arithmetic::power::lemma_pow_positive(256, (width - 1) as nat);
        vstd::arithmetic::power::lemma_pow_adds(256, 1, (width - 1) as nat);
        vstd::arithmetic::power::lemma_pow1(256);
        assert(vstd::arithmetic::power::pow(256, width) == 256 * p);
        vstd::arithmetic::div_mod::lemma_mod_breakdown(value as int, 256, p);
    }
}

/// Appends the `width` low bytes of `value` to `out`, least significant
/// first.
pub fn push_le(out: &mut Vec<u8>, value: u64, width: usize)
    ensures
        final(out)@ == old(out)@ + le_bytes(value as nat, width as nat),
{
    let ghost start = out@;
    let mut rest: u64 = value;
    let mut k: usize = 0;
    assert(out@ + le_bytes(rest as nat, (width - k) as nat) == start + le_bytes(
        value as nat,
        width as nat,
    ));
    while k < width
        invariant
            k <= width,
            out@ + le_bytes(rest as nat, (width - k) as nat) == start + le_bytes(
                value as nat,
                width as nat,
            ),
        decreases width - k,
    {
        let ghost before = out@;
        let byte: u8 = (rest % 256) as u8;
        out.push(byte);
        proof {
            let tail = le_bytes((rest / 256) as nat, (width - k - 1) as nat);
            assert(le_bytes(rest as nat, (width - k) as nat) == seq![byte] + tail);
            assert(out@ + tail =~= before + (seq![byte] + tail));
        }
        rest = rest / 256;
        k += 1;
    }
    assert(out@ + Seq::<u8>::empty() =~= out@);
}

} // verus!
