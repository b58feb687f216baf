//! Frame-over-frame animation: cyclic rotation of the ramp buffer.

use vstd::prelude::*;
use vstd::seq_lib::lemma_multiset_commutative;

use crate::color::Rgb;

verus! {

/// The buffer with its last `n` colors moved to the front, relative cyclic
/// order of all elements preserved.
pub open spec fn rotated(s: Seq<Rgb>, n: nat) -> Seq<Rgb>
    recommends
        n <= s.len(),
{
    s.subrange(s.len() - n, s.len() as int) + s.subrange(0, s.len() - n)
}

/// `k` single-step rotations applied in order.
pub open spec fn rotated_times(s: Seq<Rgb>, k: nat) -> Seq<Rgb>
    decreases k,
{
    if k == 0 {
        s
    } else {
        rotated(rotated_times(s, (k - 1) as nat), 1)
    }
}

/// Remove the last `n` colors from the buffer and reinsert them at the front.
/// Length and color multiset never change; only positions do.
pub fn rotate(buffer: &mut Vec<Rgb>, n: usize)
    requires
        n <= old(buffer)@.len(),
    ensures
        final(buffer)@ == rotated(old(buffer)@, n as nat),
{
    let len = buffer.len();
    let split: usize = len - n;
    let mut out: Vec<Rgb> = Vec::new();
    let mut i: usize = split;
    while i < len
        invariant
            split <= i <= len,
            len == buffer@.len(),
            split == len - n,
            out@ =~= buffer@.subrange(split as int, i as int),
        decreases len - i,
    {
        out.push(buffer[i]);
        i = i + 1;
    }
    let mut k: usize = 0;
    while k < split
        invariant
            k <= split <= len,
            len == buffer@.len(),
            split == len - n,
            out@ =~= buffer@.subrange(split as int, len as int) + buffer@.subrange(0, k as int),
        decreases split - k,
    {
        out.push(buffer[k]);
        k = k + 1;
    }
    *buffer = out;
}

/// Rotation never changes which colors exist, only where they sit: the
/// multiset of colors is invariant.
pub proof fn lemma_rotate_preserves_multiset(s: Seq<Rgb>, n: nat)
    requires
        n <= s.len(),
    ensures
        rotated(s, n).to_multiset() == s.to_multiset(),
{
    broadcast use vstd::multiset::group_multiset_axioms;

    let front = s.subrange(0, s.len() - n);
    let back = s.subrange(s.len() - n, s.len() as int);
    assert(s =~= front + back);
    lemma_multiset_commutative(front, back);
    lemma_multiset_commutative(back, front);
    assert(front.to_multiset().add(back.to_multiset()) =~= back.to_multiset().add(
        front.to_multiset(),
    ));
}

/// A single-step rotation is the general rotation at one: stepping `k` times
/// moves the last `k` colors to the front in one block.
pub proof fn lemma_rotate_steps(s: Seq<Rgb>, k: nat)
    requires
        k <= s.len(),
    ensures
        rotated_times(s, k) == rotated(s, k),
    decreases k,
{
    if k == 0 {
        assert(rotated(s, 0) =~= s);
    } else {
        lemma_rotate_steps(s, (k - 1) as nat);
        assert(rotated(rotated(s, (k - 1) as nat), 1) =~= rotated(s, k));
    }
}

/// A full cycle restores the buffer: after exactly `length` single-step
/// rotations the buffer is back in its original element order.
pub proof fn lemma_rotate_full_cycle(s: Seq<Rgb>)
    ensures
        rotated_times(s, s.len()) == s,
{
    lemma_rotate_steps(s, s.len());
    assert(rotated(s, s.len()) =~= s);
}

} // verus!
