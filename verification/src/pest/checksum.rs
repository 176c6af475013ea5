use vstd::prelude::*;

verus! {

/// Sum of all bytes of `s`, as an unbounded integer.
pub open spec fn sum_bytes(s: Seq<u8>) -> int
    decreases s.len(),
{
    if s.len() == 0 {
        0
    } else {
        sum_bytes(s.drop_last()) + s.last()
    }
}

/// Checksum over a modulus of 255: the complement of the byte sum.
pub fn calculate_checksum(bytes: &[u8]) -> (r: u8)
    ensures
        r == 0xFF - (sum_bytes(bytes@) % 0xFF),
{
    let mut acc: u32 = 0;
    let mut i: usize = 0;
    while i < bytes.len()
        invariant
            i <= bytes@.len(),
            acc == sum_bytes(bytes@.subrange(0, i as int)) % 0xFF,
        decreases bytes@.len() - i,
    {
        proof {
            assert(bytes@.subrange(0, (i + 1) as int).drop_last() =~= bytes@.subrange(0, i as int));
            vstd::arithmetic::div_mod::lemma_add_mod_noop_right(
                bytes@[i as int] as int,
                sum_bytes(bytes@.subrange(0, i as int)),
                0xFF,
            );
        }
        acc = (acc + bytes[i] as u32) % 0xFF;
        i = i + 1;
    }
    proof {
        assert(bytes@.subrange(0, bytes@.len() as int) =~= bytes@);
    }
    0xFF - (acc as u8)
}

} // verus!
