use vstd::arithmetic::div_mod::{lemma_div_is_ordered, lemma_div_multiples_vanish};
use vstd::arithmetic::mul::lemma_mul_is_commutative;
use vstd::prelude::*;

verus! {

/// Selector for one of the three channels of a pixel.
#[derive(Clone, Copy, PartialEq, Eq, Structural, Debug)]
pub enum Color {
    Red,
    Green,
    Blue,
}

/// One pixel: an 8-bit red, green and blue channel.
#[derive(Clone, Copy, PartialEq, Eq, Structural, Debug)]
pub struct Rgb {
    pub r: u8,
    pub g: u8,
    pub b: u8,
}

impl Rgb {
    pub fn new(r: u8, g: u8, b: u8) -> (p: Rgb)
        ensures
            p == (Rgb { r, g, b }),
    {
        Rgb { r, g, b }
    }
}

/// The value a pixel holds in the given channel.
pub open spec fn spec_channel(p: Rgb, c: Color) -> int {
    match c {
        Color::Red => p.r as int,
        Color::Green => p.g as int,
        Color::Blue => p.b as int,
    }
}

/// Select one channel of a pixel.
pub fn get_pixel_color(pixel: Rgb, color: Color) -> (v: u8)
    ensures
        v as int == spec_channel(pixel, color),
{
    match color {
        Color::Red => pixel.r,
        Color::Green => pixel.g,
        Color::Blue => pixel.b,
    }
}

/// Sum of one channel over a sequence of pixels.
pub open spec fn channel_sum(s: Seq<Rgb>, c: Color) -> int
    decreases s.len(),
{
    if s.len() == 0 {
        0
    } else {
        channel_sum(s.drop_last(), c) + spec_channel(s.last(), c)
    }
}

/// Floor-division mean of one channel over a sequence of pixels.
pub open spec fn channel_avg(s: Seq<Rgb>, c: Color) -> int {
    channel_sum(s, c) / (s.len() as int)
}

/// The flat color whose channels are the floor means of the channels over `s`.
pub open spec fn average_color(s: Seq<Rgb>) -> Rgb {
    Rgb {
        r: channel_avg(s, Color::Red) as u8,
        g: channel_avg(s, Color::Green) as u8,
        b: channel_avg(s, Color::Blue) as u8,
    }
}

/// A channel sum lies between 0 and 255 times the number of pixels.
pub proof fn lemma_channel_sum_bounds(s: Seq<Rgb>, c: Color)
    ensures
        0 <= channel_sum(s, c) <= 255 * s.len(),
    decreases s.len(),
{
    if s.len() > 0 {
        lemma_channel_sum_bounds(s.drop_last(), c);
    }
}

/// Appending one pixel adds its channel value to the channel sum.
pub proof fn lemma_channel_sum_push(s: Seq<Rgb>, p: Rgb, c: Color)
    ensures
        channel_sum(s.push(p), c) == channel_sum(s, c) + spec_channel(p, c),
{
    assert(s.push(p).drop_last() =~= s);
    assert(s.push(p).last() == p);
}

/// The mean of a channel over a non-empty sequence is a byte value.
pub proof fn lemma_channel_avg_in_range(s: Seq<Rgb>, c: Color)
    requires
        s.len() > 0,
    ensures
        0 <= channel_avg(s, c) <= 255,
{
    let n = s.len() as int;
    lemma_channel_sum_bounds(s, c);
    lemma_div_is_ordered(channel_sum(s, c), 255 * n, n);
    lemma_div_multiples_vanish(255, n);
}

proof fn lemma_uniform_channel_sum(s: Seq<Rgb>, p: Rgb, c: Color)
    requires
        forall|i: int| 0 <= i < s.len() ==> s[i] == p,
    ensures
        channel_sum(s, c) == s.len() * spec_channel(p, c),
    decreases s.len(),
{
    let v = spec_channel(p, c);
    if s.len() == 0 {
    } else {
        lemma_uniform_channel_sum(s.drop_last(), p, c);
        assert((s.len() - 1) * v + v == s.len() * v) by (nonlinear_arith);
    }
}

/// Averaging a sequence whose pixels all hold one color returns that color
/// exactly: the floor division causes no drift on uniform input.
pub proof fn lemma_uniform_average(s: Seq<Rgb>, p: Rgb)
    requires
        s.len() > 0,
        forall|i: int| 0 <= i < s.len() ==> s[i] == p,
    ensures
        average_color(s) == p,
{
    let n = s.len() as int;
    lemma_uniform_channel_sum(s, p, Color::Red);
    lemma_uniform_channel_sum(s, p, Color::Green);
    lemma_uniform_channel_sum(s, p, Color::Blue);
    lemma_div_multiples_vanish(p.r as int, n);
    lemma_div_multiples_vanish(p.g as int, n);
    lemma_div_multiples_vanish(p.b as int, n);
    lemma_mul_is_commutative(n, p.r as int);
    lemma_mul_is_commutative(n, p.g as int);
    lemma_mul_is_commutative(n, p.b as int);
}

} // verus!
