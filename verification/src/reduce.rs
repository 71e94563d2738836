//! The pairwise reduction step of the aggregation schedule: before two
//! fold branches are combined, any branch holding more entries than the
//! configured threshold is serialized to the spill encoding and replaced
//! by an empty map, bounding resident memory; the (possibly emptied)
//! branches are then merged.

use vstd::prelude::*;

use crate::codec::{decode_spec, encode_entries, lemma_round_trip};
use crate::map::{event_mentions, event_total, lemma_entry_list_totals, sat_cap, PhraseMap};

verus! {

/// The bytes decode to this map's width and to an entry list recording
/// exactly this map's counts: merging them into an empty map restores it.
pub open spec fn spill_restores(bytes: Seq<u8>, m: PhraseMap) -> bool {
    &&& decode_spec(bytes) matches Some(d) && d.0 == m.spec_width()
    &&& (decode_spec(bytes) matches Some(d) ==> (forall|q: Seq<Seq<char>>|
        #[trigger] event_total(d.1, q) == m.count_of(q)) && (forall|q: Seq<Seq<char>>|
        #[trigger] event_mentions(d.1, q) == m.contains_phrase(q)))
}

/// Serialize a branch's full contents in one pass and hand back an empty
/// branch of the same width; the pushed bytes restore the branch's counts
/// when merged back.
fn spill_one(m: PhraseMap, out: &mut Vec<Vec<u8>>) -> (r: PhraseMap)
    requires
        m.wf(),
    ensures
        r.wf(),
        r.spec_width() == m.spec_width(),
        forall|q: Seq<Seq<char>>| #[trigger] r.count_of(q) == 0,
        forall|q: Seq<Seq<char>>| !(#[trigger] r.contains_phrase(q)),
        r.num_entries() == 0,
        final(out)@.len() == old(out)@.len() + 1,
        forall|i: int| 0 <= i < old(out)@.len() ==> final(out)@[i] == old(out)@[i],
        spill_restores(final(out)@.last()@, m),
{
    let w = m.width();
    let ghost mm = m;
    proof {
        crate::map::lemma_wf_width(m);
    }
    let entries = m.into_entries();
    proof {
        assert forall|i: int| 0 <= i < entries@.len() implies (#[trigger] entries@[i]).0@.len()
            == w by {
            assert(crate::map::shard_view(entries@)[i].0.len() == mm.spec_width());
        }
    }
    let bytes = encode_entries(&entries, w);
    proof {
        let es = crate::map::shard_view(entries@);
        lemma_round_trip(es, w as nat);
        lemma_entry_list_totals(es, mm);
    }
    out.push(bytes);
    PhraseMap::new(w)
}

/// One reduction of two fold branches: a branch holding more entries than
/// `threshold` is spilled (serialized onto `spills` and cleared) first;
/// the remaining counts are then merged. Every count of both inputs
/// survives, either in the merged map or in a spill.
pub fn reduce(a: PhraseMap, b: PhraseMap, threshold: usize, spills: &mut Vec<Vec<u8>>) -> (r:
    PhraseMap)
    requires
        a.wf(),
        b.wf(),
        a.spec_width() == b.spec_width(),
    ensures
        r.wf(),
        r.spec_width() == a.spec_width(),
        forall|q: Seq<Seq<char>>|
            #[trigger] r.count_of(q) == sat_cap(
                (if a.num_entries() > threshold {
                    0int
                } else {
                    a.count_of(q) as int
                }) + (if b.num_entries() > threshold {
                    0int
                } else {
                    b.count_of(q) as int
                }),
            ),
        final(spills)@.len() == old(spills)@.len() + (if a.num_entries() > threshold {
            1int
        } else {
            0int
        }) + (if b.num_entries() > threshold {
            1int
        } else {
            0int
        }),
        forall|i: int| 0 <= i < old(spills)@.len() ==> final(spills)@[i] == old(spills)@[i],
        a.num_entries() > threshold ==> spill_restores(
            final(spills)@[old(spills)@.len() as int]@,
            a,
        ),
        b.num_entries() > threshold ==> spill_restores(final(spills)@.last()@, b),
    {
        let ghost ga = a;
        let ghost gb = b;
        let a_big = a.exceeds(threshold);
        let acc_a = if a_big {
            spill_one(a, spills)
        } else {
            a
        };
        let b_big = b.exceeds(threshold);
        let acc_b = if b_big {
            spill_one(b, spills)
        } else {
            b
        };
        let mut acc = acc_a;
        acc.merge(acc_b);
        acc
    }

/// Law (round trip): the decoded entries of a spilled branch, merged into
/// an empty map, give back exactly the branch's counts.
pub proof fn lemma_spill_round_trip(bytes: Seq<u8>, m: PhraseMap)
    requires
        spill_restores(bytes, m),
    ensures
        decode_spec(bytes) matches Some(d) && {
            &&& forall|q: Seq<Seq<char>>| #[trigger] sat_cap(0 + event_total(d.1, q)) == m.count_of(q)
            &&& forall|q: Seq<Seq<char>>| #[trigger] event_mentions(d.1, q) == m.contains_phrase(q)
        },
{
}

} // verus!