//! Frame packing: maps the flat color stream onto the zone layout, inserting
//! zero-byte padding for non-lit head and tail pixels, and slices the padded
//! byte stream into protocol-sized universes.

use vstd::arithmetic::div_mod::{lemma_div_plus_one, lemma_fundamental_div_mod_converse_div};
use vstd::prelude::*;
use vstd::seq_lib::lemma_multiset_commutative;

use crate::animator::rotated;
use crate::color::Rgb;
use crate::error::LightsError;
use crate::topology::{lemma_live_le_padded, live_pixels, live_total, padded_total, Zone};

verus! {

/// `n` zero bytes: the wire form of non-lit pixels.
pub open spec fn zeros(n: nat) -> Seq<u8> {
    Seq::new(n, |i: int| 0u8)
}

/// The wire encoding of a color sequence: three bytes per color, in red,
/// green, blue channel order.
pub open spec fn flat_colors(s: Seq<Rgb>) -> Seq<u8>
    decreases s.len(),
{
    if s.len() == 0 {
        Seq::empty()
    } else {
        flat_colors(s.drop_last()) + s.last().bytes()
    }
}

/// The padded byte stream: for each zone in order, `head` pixels of zeros,
/// then the zone's `body` colors taken from the front of the buffer, then
/// `tail` pixels of zeros. Buffer colors beyond the zones' total body count
/// are not part of the stream.
pub open spec fn zone_stream(buf: Seq<Rgb>, zones: Seq<Zone>) -> Seq<u8>
    recommends
        live_total(zones) <= buf.len(),
    decreases zones.len(),
{
    if zones.len() == 0 {
        Seq::empty()
    } else {
        let z = zones[0];
        zeros(3 * z.head as nat) + flat_colors(buf.take(z.body as int)) + zeros(3 * z.tail as nat)
            + zone_stream(buf.skip(z.body as int), zones.drop_first())
    }
}

/// The stream cut into consecutive chunks of at most `cap` bytes, in stream
/// order; every chunk but the last is full.
pub open spec fn chunked(stream: Seq<u8>, cap: nat) -> Seq<Seq<u8>>
    recommends
        cap > 0,
    decreases stream.len(),
{
    if cap == 0 || stream.len() == 0 {
        Seq::empty()
    } else if stream.len() <= cap {
        seq![stream]
    } else {
        seq![stream.take(cap as int)] + chunked(stream.skip(cap as int), cap)
    }
}

/// The byte sequences held by a vector of universes.
pub open spec fn universes_view(u: Seq<Vec<u8>>) -> Seq<Seq<u8>> {
    u.map_values(|v: Vec<u8>| v@)
}

/// The wire encoding is three bytes per color.
pub proof fn lemma_flat_len(s: Seq<Rgb>)
    ensures
        flat_colors(s).len() == 3 * s.len(),
    decreases s.len(),
{
    if s.len() > 0 {
        lemma_flat_len(s.drop_last());
    }
}

/// A padded stream is three bytes for every pixel of the topology, filler
/// included, whenever the buffer covers every zone's body.
pub proof fn lemma_zone_stream_len(buf: Seq<Rgb>, zones: Seq<Zone>)
    requires
        live_total(zones) <= buf.len(),
    ensures
        zone_stream(buf, zones).len() == 3 * padded_total(zones),
    decreases zones.len(),
{
    if zones.len() > 0 {
        let z = zones[0];
        lemma_flat_len(buf.take(z.body as int));
        lemma_zone_stream_len(buf.skip(z.body as int), zones.drop_first());
    }
}

/// Append `n` zero bytes to the stream.
fn push_zeros(stream: &mut Vec<u8>, n: usize)
    ensures
        final(stream)@ == old(stream)@ + zeros(n as nat),
{
    let mut i: usize = 0;
    while i < n
        invariant
            i <= n,
            stream@ =~= old(stream)@ + zeros(i as nat),
        decreases n - i,
    {
        stream.push(0u8);
        i = i + 1;
    }
    proof {
        assert(stream@ =~= old(stream)@ + zeros(n as nat));
    }
}

/// Append the wire encoding of `count` colors of the buffer, starting at
/// `start`, to the stream.
fn push_colors(stream: &mut Vec<u8>, buffer: &Vec<Rgb>, start: usize, count: usize)
    requires
        start + count <= buffer@.len(),
    ensures
        final(stream)@ == old(stream)@ + flat_colors(
            buffer@.subrange(start as int, start + count),
        ),
{
    let buflen = buffer.len();
    let mut j: usize = 0;
    proof {
        assert(buffer@.subrange(start as int, start as int) =~= Seq::<Rgb>::empty());
        assert(stream@ =~= old(stream)@ + flat_colors(buffer@.subrange(start as int, start as int)));
    }
    while j < count
        invariant
            j <= count,
            buflen == buffer@.len(),
            start + count <= buflen,
            stream@ =~= old(stream)@ + flat_colors(buffer@.subrange(start as int, start + j)),
        decreases count - j,
    {
        let c = buffer[start + j];
        proof {
            let sub0 = buffer@.subrange(start as int, start + j);
            let sub1 = buffer@.subrange(start as int, start + j + 1);
            assert(sub1.drop_last() =~= sub0);
            assert(sub1.last() == buffer@[start + j]);
            assert(flat_colors(sub1) == flat_colors(sub0) + c.bytes());
        }
        stream.push(c.red);
        stream.push(c.green);
        stream.push(c.blue);
        j = j + 1;
        proof {
            assert(stream@ =~= old(stream)@ + flat_colors(
                buffer@.subrange(start as int, start + j),
            ));
        }
    }
}

/// Build the padded byte stream for a buffer and topology.
fn padded_stream(buffer: &Vec<Rgb>, zones: &Vec<Zone>) -> (stream: Vec<u8>)
    requires
        live_total(zones@) <= buffer@.len(),
        3 * padded_total(zones@) <= usize::MAX,
    ensures
        stream@ == zone_stream(buffer@, zones@),
{
    let mut stream: Vec<u8> = Vec::new();
    let buflen = buffer.len();
    let mut cursor: usize = 0;
    let mut i: usize = 0;
    proof {
        assert(zones@.skip(0) =~= zones@);
        assert(buffer@.skip(0) =~= buffer@);
        assert(Seq::<u8>::empty() + zone_stream(buffer@, zones@) =~= zone_stream(
            buffer@,
            zones@,
        ));
    }
    while i < zones.len()
        invariant
            i <= zones@.len(),
            buflen == buffer@.len(),
            live_total(zones@) <= buflen,
            3 * padded_total(zones@) <= usize::MAX,
            cursor + live_total(zones@.skip(i as int)) == live_total(zones@),
            padded_total(zones@.skip(i as int)) <= padded_total(zones@),
            stream@ + zone_stream(buffer@.skip(cursor as int), zones@.skip(i as int))
                == zone_stream(buffer@, zones@),
        decreases zones@.len() - i,
    {
        let ghost zrest = zones@.skip(i as int);
        let ghost bufrest = buffer@.skip(cursor as int);
        proof {
            assert(zrest[0] == zones@[i as int]);
            assert(zrest.drop_first() =~= zones@.skip(i as int + 1));
        }
        let z = &zones[i];
        let h = z.head;
        let b = z.body;
        let t = z.tail;
        let ghost stream0 = stream@;
        proof {
            assert(zone_stream(bufrest, zrest) == zeros(3 * h as nat) + flat_colors(
                bufrest.take(b as int),
            ) + zeros(3 * t as nat) + zone_stream(bufrest.skip(b as int), zrest.drop_first()));
            assert(live_total(zrest) == b + live_total(zones@.skip(i as int + 1)));
            assert(bufrest.take(b as int) =~= buffer@.subrange(cursor as int, cursor + b));
            assert(bufrest.skip(b as int) =~= buffer@.skip(cursor + b));
        }
        push_zeros(&mut stream, 3 * h);
        push_colors(&mut stream, buffer, cursor, b);
        push_zeros(&mut stream, 3 * t);
        proof {
            assert(stream@ =~= stream0 + zeros(3 * h as nat) + flat_colors(
                bufrest.take(b as int),
            ) + zeros(3 * t as nat));
            assert(stream@ + zone_stream(buffer@.skip(cursor + b), zones@.skip(i as int + 1))
                =~= zone_stream(buffer@, zones@));
        }
        cursor = cursor + b;
        i = i + 1;
    }
    proof {
        assert(zones@.skip(zones@.len() as int) =~= Seq::<Zone>::empty());
        assert(stream@ =~= zone_stream(buffer@, zones@));
    }
    stream
}

/// Slice a byte stream into consecutive universes of at most `capacity`
/// bytes each, in stream order; universe number `k` (1-based) holds bytes
/// `(k-1)*capacity ..` of the stream.
pub fn split_universes(stream: &Vec<u8>, capacity: usize) -> (r: Vec<Vec<u8>>)
    requires
        capacity > 0,
    ensures
        universes_view(r@) == chunked(stream@, capacity as nat),
{
    let len = stream.len();
    let mut out: Vec<Vec<u8>> = Vec::new();
    let mut cursor: usize = 0;
    proof {
        assert(stream@.skip(0) =~= stream@);
        assert(universes_view(out@) + chunked(stream@, capacity as nat) =~= chunked(
            stream@,
            capacity as nat,
        ));
    }
    while cursor < len
        invariant
            cursor <= len,
            len == stream@.len(),
            capacity > 0,
            universes_view(out@) + chunked(stream@.skip(cursor as int), capacity as nat)
                == chunked(stream@, capacity as nat),
        decreases len - cursor,
    {
        let ghost rest = stream@.skip(cursor as int);
        let end: usize = if len - cursor <= capacity {
            len
        } else {
            cursor + capacity
        };
        let mut chunk: Vec<u8> = Vec::new();
        let mut p: usize = cursor;
        while p < end
            invariant
                cursor <= p <= end <= len,
                len == stream@.len(),
                chunk@ =~= stream@.subrange(cursor as int, p as int),
            decreases end - p,
        {
            chunk.push(stream[p]);
            p = p + 1;
        }
        proof {
            if rest.len() <= capacity {
                assert(chunk@ =~= rest);
                assert(chunked(rest, capacity as nat) == seq![rest]);
            } else {
                assert(chunk@ =~= rest.take(capacity as int));
                assert(rest.skip(capacity as int) =~= stream@.skip(end as int));
            }
        }
        out.push(chunk);
        proof {
            assert(stream@.skip(len as int) =~= Seq::<u8>::empty());
            assert(universes_view(out@) =~= universes_view(out@.drop_last()) + seq![chunk@]);
            assert(universes_view(out@) + chunked(stream@.skip(end as int), capacity as nat)
                =~= chunked(stream@, capacity as nat));
        }
        cursor = end;
    }
    proof {
        assert(stream@.skip(len as int) =~= Seq::<u8>::empty());
        assert(universes_view(out@) =~= chunked(stream@, capacity as nat));
    }
    out
}

/// Pack a ramp buffer onto a topology and slice the padded stream into
/// universes. Fails when the zones ask for more lit pixels than the buffer
/// holds; buffer colors beyond the zones' total body count are dropped.
pub fn pack(buffer: &Vec<Rgb>, zones: &Vec<Zone>, universe_capacity: usize) -> (r: Result<
    Vec<Vec<u8>>,
    LightsError,
>)
    requires
        universe_capacity > 0,
        3 * padded_total(zones@) <= usize::MAX,
    ensures
        r is Err <==> live_total(zones@) > buffer@.len(),
        r is Err ==> r->Err_0 == LightsError::TopologyMismatch,
        r is Ok ==> universes_view(r->Ok_0@) == chunked(
            zone_stream(buffer@, zones@),
            universe_capacity as nat,
        ),
{
    proof {
        lemma_live_le_padded(zones@);
    }
    let live = live_pixels(zones);
    if live > buffer.len() {
        return Err(LightsError::TopologyMismatch);
    }
    let stream = padded_stream(buffer, zones);
    Ok(split_universes(&stream, universe_capacity))
}

/// Concatenating all universes in ascending index order reproduces the
/// padded stream exactly.
pub proof fn lemma_chunked_concat(stream: Seq<u8>, cap: nat)
    requires
        cap > 0,
    ensures
        chunked(stream, cap).flatten() == stream,
    decreases stream.len(),
{
    if stream.len() == 0 {
        assert(chunked(stream, cap).flatten() =~= stream);
    } else if stream.len() <= cap {
        assert(chunked(stream, cap) == seq![stream]);
        assert(seq![stream].first() == stream);
        assert(seq![stream].drop_first() =~= Seq::<Seq<u8>>::empty());
        assert(Seq::<Seq<u8>>::empty().flatten() =~= Seq::<u8>::empty());
        assert(chunked(stream, cap).flatten() =~= stream);
    } else {
        let rest = chunked(stream.skip(cap as int), cap);
        lemma_chunked_concat(stream.skip(cap as int), cap);
        assert((seq![stream.take(cap as int)] + rest).drop_first() =~= rest);
        assert((seq![stream.take(cap as int)] + rest).first() == stream.take(cap as int));
        assert(chunked(stream, cap).flatten() =~= stream);
    }
}

/// A stream splits into exactly the number of universes needed: the stream
/// length divided by the capacity, rounded up.
pub proof fn lemma_chunked_count(stream: Seq<u8>, cap: nat)
    requires
        cap > 0,
    ensures
        chunked(stream, cap).len() == (stream.len() + cap - 1) / (cap as int),
    decreases stream.len(),
{
    let len = stream.len() as int;
    let c = cap as int;
    if stream.len() == 0 {
        lemma_fundamental_div_mod_converse_div(c - 1, c, 0, c - 1);
    } else if stream.len() <= cap {
        lemma_fundamental_div_mod_converse_div(len + c - 1, c, 1, len - 1);
    } else {
        lemma_chunked_count(stream.skip(c), cap);
        lemma_div_plus_one(len - 1, c);
    }
}

/// The wire encoding of a concatenation is the concatenation of the wire
/// encodings.
pub proof fn lemma_flat_concat(a: Seq<Rgb>, b: Seq<Rgb>)
    ensures
        flat_colors(a + b) == flat_colors(a) + flat_colors(b),
    decreases b.len(),
{
    if b.len() == 0 {
        assert(a + b =~= a);
        assert(flat_colors(a) + flat_colors(b) =~= flat_colors(a));
    } else {
        assert((a + b).drop_last() =~= a + b.drop_last());
        assert((a + b).last() == b.last());
        lemma_flat_concat(a, b.drop_last());
        assert(flat_colors(a + b) =~= flat_colors(a) + flat_colors(b));
    }
}

proof fn lemma_zeros_concat(x: nat, y: nat)
    ensures
        zeros(x) + zeros(y) == zeros(x + y),
{
    assert(zeros(x) + zeros(y) =~= zeros(x + y));
}

/// What bytes a padded stream holds: one zero byte for every filler channel,
/// plus the wire encoding of the consumed colors — regardless of where the
/// zones place them.
pub proof fn lemma_zone_stream_multiset(buf: Seq<Rgb>, zones: Seq<Zone>)
    requires
        live_total(zones) <= buf.len(),
    ensures
        zone_stream(buf, zones).to_multiset() == zeros(
            (3 * padded_total(zones) - 3 * live_total(zones)) as nat,
        ).to_multiset().add(flat_colors(buf.take(live_total(zones) as int)).to_multiset()),
    decreases zones.len(),
{
    broadcast use vstd::multiset::group_multiset_axioms;
    broadcast use vstd::seq_lib::group_to_multiset_ensures;

    lemma_live_le_padded(zones);
    if zones.len() == 0 {
        assert(buf.take(0) =~= Seq::<Rgb>::empty());
        assert(zeros(0) =~= Seq::<u8>::empty());
        assert(Seq::<u8>::empty().to_multiset() =~= vstd::multiset::Multiset::<u8>::empty());
        assert(zone_stream(buf, zones).to_multiset() =~= zeros(0).to_multiset().add(
            flat_colors(Seq::<Rgb>::empty()).to_multiset(),
        ));
    } else {
        let z = zones[0];
        let rest = zones.drop_first();
        let b = z.body as int;
        let live = live_total(zones) as int;
        let live_rest = live_total(rest) as int;
        let bufrest = buf.skip(b);
        lemma_live_le_padded(rest);
        lemma_zone_stream_multiset(bufrest, rest);

        // split the consumed colors at the first zone's body
        assert(buf.take(live) =~= buf.take(b) + buf.take(live).skip(b));
        assert(buf.take(live).skip(b) =~= bufrest.take(live_rest));
        lemma_flat_concat(buf.take(b), bufrest.take(live_rest));

        // concatenation turns into multiset addition, piece by piece
        let zh = zeros(3 * z.head as nat);
        let fb = flat_colors(buf.take(b));
        let zt = zeros(3 * z.tail as nat);
        let srest = zone_stream(bufrest, rest);
        lemma_multiset_commutative(zh + fb + zt, srest);
        lemma_multiset_commutative(zh + fb, zt);
        lemma_multiset_commutative(zh, fb);

        // gather all filler zeros into one block
        let zrest = zeros((3 * padded_total(rest) - 3 * live_total(rest)) as nat);
        lemma_zeros_concat(3 * z.head as nat, 3 * z.tail as nat);
        lemma_zeros_concat(
            (3 * z.head as nat + 3 * z.tail as nat) as nat,
            (3 * padded_total(rest) - 3 * live_total(rest)) as nat,
        );
        lemma_multiset_commutative(zh, zt);
        lemma_multiset_commutative(zh + zt, zrest);
        lemma_multiset_commutative(fb, flat_colors(bufrest.take(live_rest)));
        assert(zeros((3 * padded_total(zones) - 3 * live_total(zones)) as nat) == zh + zt
            + zrest);
        assert(zone_stream(buf, zones).to_multiset() =~= zeros(
            (3 * padded_total(zones) - 3 * live_total(zones)) as nat,
        ).to_multiset().add(flat_colors(buf.take(live)).to_multiset()));
    }
}

/// Packing a rotated buffer never changes which bytes the padded stream
/// holds, only where they sit, whenever the buffer exactly covers the zones'
/// lit pixels.
pub proof fn lemma_stream_rotation_invariant(buf: Seq<Rgb>, zones: Seq<Zone>, n: nat)
    requires
        live_total(zones) == buf.len(),
        n <= buf.len(),
    ensures
        zone_stream(rotated(buf, n), zones).to_multiset() == zone_stream(buf, zones).to_multiset(),
{
    broadcast use vstd::multiset::group_multiset_axioms;

    let live = live_total(zones) as int;
    let front = buf.subrange(0, buf.len() - n);
    let back = buf.subrange(buf.len() - n, buf.len() as int);
    assert(buf =~= front + back);
    assert(rotated(buf, n) == back + front);
    lemma_zone_stream_multiset(buf, zones);
    lemma_zone_stream_multiset(rotated(buf, n), zones);
    assert(buf.take(live) =~= buf);
    assert(rotated(buf, n).take(live) =~= rotated(buf, n));
    lemma_flat_concat(front, back);
    lemma_flat_concat(back, front);
    lemma_multiset_commutative(flat_colors(front), flat_colors(back));
    lemma_multiset_commutative(flat_colors(back), flat_colors(front));
    assert(flat_colors(front).to_multiset().add(flat_colors(back).to_multiset())
        =~= flat_colors(back).to_multiset().add(flat_colors(front).to_multiset()));
}

/// Every universe holds at most `cap` bytes, and every universe before the
/// last is exactly full.
pub proof fn lemma_chunked_shape(stream: Seq<u8>, cap: nat)
    requires
        cap > 0,
    ensures
        forall|i: int|
            0 <= i < chunked(stream, cap).len() ==> #[trigger] chunked(stream, cap)[i].len()
                <= cap,
        forall|i: int|
            0 <= i < chunked(stream, cap).len() - 1 ==> #[trigger] chunked(stream, cap)[i].len()
                == cap,
    decreases stream.len(),
{
    if stream.len() > cap {
        lemma_chunked_shape(stream.skip(cap as int), cap);
        let head = seq![stream.take(cap as int)];
        let rest = chunked(stream.skip(cap as int), cap);
        assert forall|i: int| 0 <= i < chunked(stream, cap).len() implies #[trigger] chunked(
            stream,
            cap,
        )[i].len() <= cap by {
            if i > 0 {
                assert(chunked(stream, cap)[i] == rest[i - 1]);
            }
        }
        assert forall|i: int| 0 <= i < chunked(stream, cap).len() - 1 implies #[trigger] chunked(
            stream,
            cap,
        )[i].len() == cap by {
            if i > 0 {
                assert(chunked(stream, cap)[i] == rest[i - 1]);
            }
        }
    }
}

} // verus!
