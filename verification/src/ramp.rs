//! Ramp generation: one full cycle of a six-phase hue transition
//! (red, yellow, green, cyan, blue, magenta, back to red), sized to the
//! lit pixel count of a topology.

use vstd::arithmetic::div_mod::{
    lemma_fundamental_div_mod, lemma_mod_bound, lemma_multiply_divide_lt,
};
use vstd::prelude::*;

use crate::color::Rgb;
use crate::error::LightsError;
use crate::topology::{live_pixels, live_total, Zone};

verus! {

/// The per-step channel increment: `max` divided by the segment length,
/// rounded to the nearest integer (halves rounded up).
pub open spec fn segment_step(seg: nat, max: u8) -> nat
    recommends
        seg > 0,
{
    (2 * (max as nat) + seg) / (2 * seg)
}

/// Value of a channel ramped upward from 0: `j` increments of `step`,
/// saturated at `max`.
pub open spec fn ramp_up(j: nat, step: nat, max: u8) -> u8 {
    if j * step > max {
        max
    } else {
        (j * step) as u8
    }
}

/// Value of a channel ramped downward from `max`: `j` decrements of `step`,
/// saturated at 0.
pub open spec fn ramp_down(j: nat, step: nat, max: u8) -> u8 {
    if j * step >= max {
        0
    } else {
        (max - j * step) as u8
    }
}

/// Color of ramp position `i`, for segment length `seg` and increment `step`.
/// In each of the six segments one channel is held at `max`, one is held at 0,
/// and one ramps linearly; at segment boundaries the ramped channel lands
/// exactly on `max` or 0 regardless of rounding in `step`.
pub open spec fn ramp_color(i: nat, seg: nat, step: nat, max: u8) -> Rgb
    recommends
        seg > 0,
        i < 6 * seg,
{
    let s = i / seg;
    let j = i % seg;
    if s == 0 {
        Rgb { red: max, green: ramp_up(j, step, max), blue: 0 }
    } else if s == 1 {
        Rgb { red: ramp_down(j, step, max), green: max, blue: 0 }
    } else if s == 2 {
        Rgb { red: 0, green: max, blue: ramp_up(j, step, max) }
    } else if s == 3 {
        Rgb { red: 0, green: ramp_down(j, step, max), blue: max }
    } else if s == 4 {
        Rgb { red: ramp_up(j, step, max), green: 0, blue: max }
    } else {
        Rgb { red: max, green: 0, blue: ramp_down(j, step, max) }
    }
}

/// The whole ramp for `live` lit pixels: six segments of `live / 6` colors.
/// Remainder pixels beyond the last full segment are dropped by design.
pub open spec fn ramp_seq(live: nat, max: u8) -> Seq<Rgb> {
    Seq::new(
        6 * (live / 6),
        |i: int| ramp_color(i as nat, live / 6, segment_step(live / 6, max), max),
    )
}

/// `j` increments of `step`, saturated at `max`.
fn scaled_up(j: usize, step: usize, max: u8) -> (v: u8)
    ensures
        v == ramp_up(j as nat, step as nat, max),
{
    if step == 0 {
        0
    } else if j > (max as usize) / step {
        proof {
            lemma_fundamental_div_mod(max as int, step as int);
            lemma_mod_bound(max as int, step as int);
            assert(j * step > max) by (nonlinear_arith)
                requires
                    j as int >= (max as int) / (step as int) + 1,
                    max as int == (step as int) * ((max as int) / (step as int)) + (max as int)
                        % (step as int),
                    (max as int) % (step as int) < step as int,
                    step as int >= 1,
            ;
        }
        max
    } else {
        proof {
            lemma_fundamental_div_mod(max as int, step as int);
            lemma_mod_bound(max as int, step as int);
            assert(j * step <= max) by (nonlinear_arith)
                requires
                    0 <= j as int <= (max as int) / (step as int),
                    max as int == (step as int) * ((max as int) / (step as int)) + (max as int)
                        % (step as int),
                    (max as int) % (step as int) >= 0,
                    step as int >= 1,
            ;
        }
        (j * step) as u8
    }
}

/// `j` decrements of `step` starting from `max`, saturated at 0.
fn scaled_down(j: usize, step: usize, max: u8) -> (v: u8)
    ensures
        v == ramp_down(j as nat, step as nat, max),
{
    if step == 0 {
        if max == 0 {
            0
        } else {
            max
        }
    } else if j > (max as usize) / step {
        proof {
            lemma_fundamental_div_mod(max as int, step as int);
            lemma_mod_bound(max as int, step as int);
            assert(j * step > max) by (nonlinear_arith)
                requires
                    j as int >= (max as int) / (step as int) + 1,
                    max as int == (step as int) * ((max as int) / (step as int)) + (max as int)
                        % (step as int),
                    (max as int) % (step as int) < step as int,
                    step as int >= 1,
            ;
        }
        0
    } else {
        proof {
            lemma_fundamental_div_mod(max as int, step as int);
            lemma_mod_bound(max as int, step as int);
            assert(j * step <= max) by (nonlinear_arith)
                requires
                    0 <= j as int <= (max as int) / (step as int),
                    max as int == (step as int) * ((max as int) / (step as int)) + (max as int)
                        % (step as int),
                    (max as int) % (step as int) >= 0,
                    step as int >= 1,
            ;
        }
        if j * step >= max as usize {
            0
        } else {
            max - (j * step) as u8
        }
    }
}

/// Build the ramp buffer for a topology: one color per lit pixel of each full
/// segment, deterministic in its inputs. A topology with no lit pixels is
/// rejected.
pub fn generate(zones: &Vec<Zone>, max_brightness: u8) -> (r: Result<Vec<Rgb>, LightsError>)
    requires
        live_total(zones@) <= usize::MAX,
    ensures
        live_total(zones@) == 0 <==> r is Err,
        r is Err ==> r->Err_0 == LightsError::InvalidTopology,
        r is Ok ==> r->Ok_0@ == ramp_seq(live_total(zones@), max_brightness),
{
    let live = live_pixels(zones);
    if live == 0 {
        return Err(LightsError::InvalidTopology);
    }
    let seg: usize = live / 6;
    let mut lights: Vec<Rgb> = Vec::new();
    if seg == 0 {
        proof {
            assert(lights@ =~= ramp_seq(live as nat, max_brightness));
        }
        return Ok(lights);
    }
    let step: usize = (2 * (max_brightness as usize) + seg) / (2 * seg);
    let total: usize = 6 * seg;
    let mut i: usize = 0;
    while i < total
        invariant
            0 < seg,
            total == 6 * seg,
            step == segment_step(seg as nat, max_brightness),
            i <= total,
            lights@.len() == i,
            forall|k: int|
                0 <= k < i ==> lights@[k] == ramp_color(
                    k as nat,
                    seg as nat,
                    step as nat,
                    max_brightness,
                ),
        decreases total - i,
    {
        proof {
            lemma_multiply_divide_lt(i as int, seg as int, 6);
            lemma_mod_bound(i as int, seg as int);
        }
        let s: usize = i / seg;
        let j: usize = i % seg;
        let c = if s == 0 {
            Rgb { red: max_brightness, green: scaled_up(j, step, max_brightness), blue: 0 }
        } else if s == 1 {
            Rgb { red: scaled_down(j, step, max_brightness), green: max_brightness, blue: 0 }
        } else if s == 2 {
            Rgb { red: 0, green: max_brightness, blue: scaled_up(j, step, max_brightness) }
        } else if s == 3 {
            Rgb { red: 0, green: scaled_down(j, step, max_brightness), blue: max_brightness }
        } else if s == 4 {
            Rgb { red: scaled_up(j, step, max_brightness), green: 0, blue: max_brightness }
        } else {
            Rgb { red: max_brightness, green: 0, blue: scaled_down(j, step, max_brightness) }
        };
        proof {
            assert(c == ramp_color(i as nat, seg as nat, step as nat, max_brightness));
        }
        lights.push(c);
        i = i + 1;
    }
    proof {
        assert(lights@ =~= ramp_seq(live as nat, max_brightness));
    }
    Ok(lights)
}

/// Every channel of every ramp color stays within the brightness ceiling, and
/// a lit count divisible by six is covered exactly: the ramp then has one
/// color per lit pixel.
pub proof fn lemma_generate_length_and_range(live: nat, max: u8)
    requires
        live > 0,
        live % 6 == 0,
    ensures
        ramp_seq(live, max).len() == live,
        forall|i: int| 0 <= i < live ==> #[trigger] ramp_seq(live, max)[i].within(max),
{
    lemma_fundamental_div_mod(live as int, 6);
    assert forall|i: int| 0 <= i < live implies #[trigger] ramp_seq(live, max)[i].within(max) by {
        let seg = live / 6;
        let step = segment_step(seg, max);
        let j = (i as nat) % seg;
        assert(ramp_seq(live, max)[i] == ramp_color(i as nat, seg, step, max));
        assert(ramp_up(j, step, max) <= max);
        assert(ramp_down(j, step, max) <= max);
    }
}

/// Ramp generation is deterministic: two results produced from identical
/// inputs are identical.
pub proof fn lemma_generate_deterministic(r1: Seq<Rgb>, r2: Seq<Rgb>, live: nat, max: u8)
    requires
        r1 == ramp_seq(live, max),
        r2 == ramp_seq(live, max),
    ensures
        r1 == r2,
{
}

} // verus!
