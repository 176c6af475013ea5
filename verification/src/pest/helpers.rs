use vstd::prelude::*;
use crate::pest::checksum::sum_bytes;
use crate::pest::models::SiteVisit;
use crate::pest::models::VisitPopulation;

verus! {

/// Checksum over a modulus of 256: the wrapping negation of the byte sum,
/// so that a whole message followed by its checksum sums to zero mod 256.
pub fn calculate_checksum(bytes: &[u8]) -> (r: u8)
    ensures
        r == (0x100 - sum_bytes(bytes@) % 0x100) % 0x100,
{
    let mut acc: u32 = 0;
    let mut i: usize = 0;
    while i < bytes.len()
        invariant
            i <= bytes@.len(),
            acc == sum_bytes(bytes@.subrange(0, i as int)) % 0x100,
        decreases bytes@.len() - i,
    {
        proof {
            assert(bytes@.subrange(0, (i + 1) as int).drop_last() =~= bytes@.subrange(0, i as int));
            vstd::arithmetic::div_mod::lemma_add_mod_noop_right(
                bytes@[i as int] as int,
                sum_bytes(bytes@.subrange(0, i as int)),
                0x100,
            );
        }
        acc = (acc + bytes[i] as u32) % 0x100;
        i = i + 1;
    }
    proof {
        assert(bytes@.subrange(0, bytes@.len() as int) =~= bytes@);
    }
    (((0x100 - acc) % 0x100) as u8)
}

/// All reports in the visit agree: any two entries for the same species
/// carry the same count.
pub open spec fn consistent_counts(ps: Seq<VisitPopulation>) -> bool {
    forall|i: int, j: int|
        0 <= i < ps.len() && 0 <= j < ps.len() && ps[i].species@ == ps[j].species@
            ==> ps[i].count == ps[j].count
}

/// A visit is valid when no species is reported twice with different counts.
pub fn is_valid_visit(visit: SiteVisit) -> (r: bool)
    ensures
        r == consistent_counts(visit.populations@),
{
    let n = visit.populations.len();
    let mut i: usize = 0;
    while i < n
        invariant
            i <= n,
            n == visit.populations@.len(),
            forall|a: int, b: int|
                0 <= a < i && 0 <= b < visit.populations@.len()
                    && visit.populations@[a].species@ == visit.populations@[b].species@
                    ==> visit.populations@[a].count == visit.populations@[b].count,
        decreases n - i,
    {
        let mut j: usize = 0;
        while j < n
            invariant
                i < n,
                j <= n,
                n == visit.populations@.len(),
                forall|b: int|
                    0 <= b < j && visit.populations@[i as int].species@ == visit.populations@[b].species@
                        ==> visit.populations@[i as int].count == visit.populations@[b].count,
            decreases n - j,
        {
            if visit.populations[i].species == visit.populations[j].species
                && visit.populations[i].count != visit.populations[j].count {
                proof {
                    let s = visit.populations@;
                    assert(s[i as int].species@ == s[j as int].species@);
                    assert(s[i as int].count != s[j as int].count);
                    if consistent_counts(s) {
                        assert(s[i as int].count == s[j as int].count);
                        assert(false);
                    }
                }
                return false;
            }
            j = j + 1;
        }
        i = i + 1;
    }
    true
}

} // verus!
