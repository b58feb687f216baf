//! Zone topology: the static layout of the physical pixel strip.

use vstd::prelude::*;

verus! {

/// One contiguous physical segment of the strip. `head` and `tail` count
/// non-lit filler pixels (wiring slack) before and after the `body` of lit,
/// addressable pixels. `name` is for diagnostics only and carries no behavior.
pub struct Zone {
    pub head: usize,
    pub body: usize,
    pub tail: usize,
    pub name: String,
}

/// Total number of lit pixels across the zones: the sum of the `body` counts.
pub open spec fn live_total(zones: Seq<Zone>) -> nat
    decreases zones.len(),
{
    if zones.len() == 0 {
        0
    } else {
        zones[0].body as nat + live_total(zones.drop_first())
    }
}

/// Total pixel count across the zones, filler included:
/// the sum of `head + body + tail`.
pub open spec fn padded_total(zones: Seq<Zone>) -> nat
    decreases zones.len(),
{
    if zones.len() == 0 {
        0
    } else {
        zones[0].head as nat + zones[0].body as nat + zones[0].tail as nat + padded_total(
            zones.drop_first(),
        )
    }
}

/// Every zone's body is counted in the padded total as well, so the lit
/// count never exceeds the padded count.
pub proof fn lemma_live_le_padded(zones: Seq<Zone>)
    ensures
        live_total(zones) <= padded_total(zones),
    decreases zones.len(),
{
    if zones.len() > 0 {
        lemma_live_le_padded(zones.drop_first());
    }
}

/// Count the lit pixels of a topology.
pub fn live_pixels(zones: &Vec<Zone>) -> (n: usize)
    requires
        live_total(zones@) <= usize::MAX,
    ensures
        n == live_total(zones@),
{
    let mut n: usize = 0;
    let mut i: usize = 0;
    proof {
        assert(zones@.skip(0) =~= zones@);
    }
    while i < zones.len()
        invariant
            i <= zones@.len(),
            n + live_total(zones@.skip(i as int)) == live_total(zones@),
            live_total(zones@) <= usize::MAX,
        decreases zones@.len() - i,
    {
        proof {
            assert(zones@.skip(i as int).drop_first() =~= zones@.skip(i + 1));
            assert(zones@.skip(i as int)[0] == zones@[i as int]);
        }
        n = n + zones[i].body;
        i = i + 1;
    }
    proof {
        assert(zones@.skip(zones@.len() as int) =~= Seq::<Zone>::empty());
    }
    n
}

/// Count all pixels of a topology, filler included.
pub fn padded_pixels(zones: &Vec<Zone>) -> (n: usize)
    requires
        padded_total(zones@) <= usize::MAX,
    ensures
        n == padded_total(zones@),
{
    let mut n: usize = 0;
    let mut i: usize = 0;
    proof {
        assert(zones@.skip(0) =~= zones@);
    }
    while i < zones.len()
        invariant
            i <= zones@.len(),
            n + padded_total(zones@.skip(i as int)) == padded_total(zones@),
            padded_total(zones@) <= usize::MAX,
        decreases zones@.len() - i,
    {
        proof {
            assert(zones@.skip(i as int).drop_first() =~= zones@.skip(i + 1));
            assert(zones@.skip(i as int)[0] == zones@[i as int]);
        }
        let z = &zones[i];
        n = n + z.head + z.body + z.tail;
        i = i + 1;
    }
    proof {
        assert(zones@.skip(zones@.len() as int) =~= Seq::<Zone>::empty());
    }
    n
}

} // verus!
