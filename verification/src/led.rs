//! The addressable RGB LED: its one-wire waveform clocked out of SPI, and the
//! color that a CO2 value is shown in.

use crate::ieee::{at_most, is_nan, lemma_thresholds, scaled, scaled_int};
use vstd::prelude::*;

verus! {

/// A color, eight bits for each channel.
#[derive(Clone, Copy, Debug, PartialEq, Eq, Structural)]
pub struct Color {
    pub r: u8,
    pub g: u8,
    pub b: u8,
}

// ---------------------------------------------------------------------------
// The waveform
// ---------------------------------------------------------------------------

/// Bit `p` of the waveform, counted over all bytes, most significant first.
pub open spec fn spi_bit(buf: Seq<u8>, p: int) -> bool {
    buf[p / 8] & (0x80u8 >> ((p % 8) as u8)) != 0
}

/// Bit `i` of the pixel word, counted from the least significant.
pub open spec fn pixel_bit(grb: u32, i: int) -> bool {
    (grb >> (i as u32)) & 1 == 1
}

/// What the waveform holds at `p`: each pixel bit, from the most significant of
/// the 24 down, is a high, the bit itself, and a low.
pub open spec fn wave_bit(grb: u32, p: int) -> bool {
    if p % 3 == 0 {
        true
    } else if p % 3 == 1 {
        pixel_bit(grb, 23 - p / 3)
    } else {
        false
    }
}

/// Setting bit `j` of a byte sets that bit and no other.
proof fn lemma_set_bit(b: u8, j: u8, k: u8)
    requires
        j < 8,
        k < 8,
    ensures
        ((b | (0x80u8 >> j)) & (0x80u8 >> k) != 0) == (j == k || b & (0x80u8 >> k) != 0),
{
    assert(j < 8 && k < 8 ==> (((b | (0x80u8 >> j)) & (0x80u8 >> k) != 0) == (j == k || b & (0x80u8
        >> k) != 0))) by (bit_vector);
}

/// Append one bit to the waveform.
fn put_bit(buf: &mut [u8; 9], pos: usize, high: bool)
    requires
        pos < 72,
        forall|p: int| pos <= p < 72 ==> !#[trigger] spi_bit(old(buf)@, p),
    ensures
        spi_bit(final(buf)@, pos as int) == high,
        forall|p: int| 0 <= p < 72 && p != pos ==> #[trigger] spi_bit(final(buf)@, p) == spi_bit(
            old(buf)@,
            p,
        ),
{
    if high {
        let at: usize = pos / 8;
        let bit: u8 = (pos % 8) as u8;
        let byte: u8 = buf[at];
        buf[at] = byte | (0x80u8 >> bit);
        proof {
            assert forall|p: int| 0 <= p < 72 implies #[trigger] spi_bit(buf@, p) == (p == pos
                || spi_bit(old(buf)@, p)) by {
                lemma_set_bit(byte, bit, (p % 8) as u8);
                if p / 8 == at {
                    assert(buf@[p / 8] == byte | (0x80u8 >> bit));
                }
            }
        }
    }
}

/// Expand 24 WS2812 bits into 72 SPI bits (9 bytes), MSB first: '1' is sent as
/// `110`, '0' as `100`.
pub fn encode(grb: u32) -> (buf: [u8; 9])
    ensures
        forall|p: int| 0 <= p < 72 ==> #[trigger] spi_bit(buf@, p) == wave_bit(grb, p),
{
    let mut buf: [u8; 9] = [0u8; 9];
    proof {
        assert forall|p: int| 0 <= p < 72 implies !#[trigger] spi_bit(buf@, p) by {
            let mask = 0x80u8 >> ((p % 8) as u8);
            assert(0u8 & mask == 0) by (bit_vector);
        }
    }
    let mut sent: u32 = 0;
    while sent < 24
        invariant
            sent <= 24,
            forall|p: int| 3 * sent <= p < 72 ==> !#[trigger] spi_bit(buf@, p),
            forall|p: int| 0 <= p < 3 * sent ==> #[trigger] spi_bit(buf@, p) == wave_bit(grb, p),
        decreases 24 - sent,
    {
        let i: u32 = 23 - sent;
        let one: bool = (grb >> i) & 1 == 1;
        let pos: usize = 3 * sent as usize;
        put_bit(&mut buf, pos, true);
        put_bit(&mut buf, pos + 1, one);
        put_bit(&mut buf, pos + 2, false);
        proof {
            assert(wave_bit(grb, pos as int));
            assert(wave_bit(grb, pos + 1) == one) by {
                assert((pos + 1) / 3 == sent);
            }
            assert(!wave_bit(grb, pos + 2));
        }
        sent += 1;
    }
    buf
}

/// The word of a pixel: green, red, blue.
pub fn pixel_word(r: u8, g: u8, b: u8) -> (grb: u32)
    ensures
        grb == g * 0x1_0000 + r * 0x100 + b,
{
    g as u32 * 0x1_0000 + r as u32 * 0x100 + b as u32
}

/// The bytes that set the pixel to a color.
pub fn pixel_frame(color: Color) -> (buf: [u8; 9])
    ensures
        forall|p: int|
            0 <= p < 72 ==> #[trigger] spi_bit(buf@, p) == wave_bit(
                (color.g * 0x1_0000 + color.r * 0x100 + color.b) as u32,
                p,
            ),
        forall|k: int| 0 <= k < 8 ==> #[trigger] carries_color(buf@, k, color),
{
    let buf = encode(pixel_word(color.r, color.g, color.b));
    proof {
        assert forall|k: int| 0 <= k < 8 implies #[trigger] carries_color(buf@, k, color) by {
            law_color_goes_out_green_red_blue(color, buf@, k);
        }
    }
    buf
}

// ---------------------------------------------------------------------------
// CO2 to color
// ---------------------------------------------------------------------------

/// Dim purple, shown while there is no reading: an off-scale color, so that it
/// is never confused with blue.
pub open spec fn pending() -> Color {
    Color { r: 18, g: 0, b: 24 }
}

/// Dim purple, shown while there is no reading.
pub fn pending_color() -> (color: Color)
    ensures
        color == pending(),
{
    Color { r: 18, g: 0, b: 24 }
}

/// Where a CO2 value lies on the scale.
#[derive(Clone, Copy, Debug, PartialEq, Eq, Structural)]
pub enum Band {
    /// At or beyond an end of the scale.
    Solid { color: Color },
    /// Between two stops: the color goes from `from` at `low` ppm to `to` at
    /// `high` ppm.
    Fade { low: u16, high: u16, from: Color, to: Color },
}

/// Outdoor ambient, cleanest.
pub open spec fn blue() -> Color {
    Color { r: 0, g: 0, b: 45 }
}

/// Fresh indoor air.
pub open spec fn green() -> Color {
    Color { r: 0, g: 45, b: 0 }
}

/// Moderate.
pub open spec fn yellow() -> Color {
    Color { r: 45, g: 35, b: 0 }
}

/// Stuffy, ventilate.
pub open spec fn red() -> Color {
    Color { r: 55, g: 0, b: 0 }
}

/// The band of the value with the bit pattern `ppm`: blue up to 420 ppm, then
/// fading to green at 650, yellow at 1000 and red at 1500, and red above.
/// Whatever is not a number is red.
pub open spec fn band_of(ppm: u32) -> Band {
    if is_nan(ppm) {
        Band::Solid { color: red() }
    } else if scaled(ppm) <= scaled_int(420) {
        Band::Solid { color: blue() }
    } else if scaled(ppm) <= scaled_int(650) {
        Band::Fade { low: 420, high: 650, from: blue(), to: green() }
    } else if scaled(ppm) <= scaled_int(1000) {
        Band::Fade { low: 650, high: 1000, from: green(), to: yellow() }
    } else if scaled(ppm) <= scaled_int(1500) {
        Band::Fade { low: 1000, high: 1500, from: yellow(), to: red() }
    } else {
        Band::Solid { color: red() }
    }
}

/// Where the CO2 value with the bit pattern `ppm` lies on the color scale.
pub fn co2_band(ppm: u32) -> (band: Band)
    ensures
        band == band_of(ppm),
{
    proof {
        lemma_thresholds();
    }
    let blue = Color { r: 0, g: 0, b: 45 };
    let green = Color { r: 0, g: 45, b: 0 };
    let yellow = Color { r: 45, g: 35, b: 0 };
    let red = Color { r: 55, g: 0, b: 0 };
    if at_most(ppm, 0x43d2_0000) {
        Band::Solid { color: blue }
    } else if at_most(ppm, 0x4422_8000) {
        Band::Fade { low: 420, high: 650, from: blue, to: green }
    } else if at_most(ppm, 0x447a_0000) {
        Band::Fade { low: 650, high: 1000, from: green, to: yellow }
    } else if at_most(ppm, 0x44bb_8000) {
        Band::Fade { low: 1000, high: 1500, from: yellow, to: red }
    } else {
        Band::Solid { color: red }
    }
}

// ---------------------------------------------------------------------------
// Laws
// ---------------------------------------------------------------------------

/// The color at the low end of a band.
pub open spec fn low_end(band: Band) -> Color {
    match band {
        Band::Solid { color } => color,
        Band::Fade { from, .. } => from,
    }
}

/// The color at the high end of a band.
pub open spec fn high_end(band: Band) -> Color {
    match band {
        Band::Solid { color } => color,
        Band::Fade { to, .. } => to,
    }
}

/// The pending color is off the scale: in every band the red or the blue channel
/// is dark at both ends, and the pending color has both.
pub proof fn law_pending_is_off_scale(ppm: u32)
    ensures
        ({
            let band = band_of(ppm);
            ||| low_end(band).r == 0 && high_end(band).r == 0
            ||| low_end(band).b == 0 && high_end(band).b == 0
        }),
        pending().r > 0 && pending().b > 0,
{
}

/// A value inside a fade lies between its stops: above the lower one and at
/// most the upper one.
pub proof fn law_fade_holds_the_value(ppm: u32)
    ensures
        band_of(ppm) matches Band::Fade { low, high, .. } ==> {
            &&& !is_nan(ppm)
            &&& scaled_int(low as int) < scaled(ppm) <= scaled_int(high as int)
        },
{
}

/// The color of a stop of the scale.
pub open spec fn stop_color(ppm: u16) -> Color {
    if ppm == 420 {
        blue()
    } else if ppm == 650 {
        green()
    } else if ppm == 1000 {
        yellow()
    } else {
        red()
    }
}

/// The color drifts and never jumps: a band begins and ends in the color of the
/// stop that is there, which is the one in which its neighbour ends or begins.
pub proof fn law_bands_meet_at_the_stops(ppm: u32)
    ensures
        match band_of(ppm) {
            Band::Fade { low, high, from, to } => from == stop_color(low) && to == stop_color(high),
            Band::Solid { color } => if !is_nan(ppm) && scaled(ppm) <= scaled_int(420) {
                color == stop_color(420)
            } else {
                color == stop_color(1500) && (is_nan(ppm) || scaled(ppm) > scaled_int(1500))
            },
        },
{
}

/// A fade goes from one stop of the scale to the next: none is passed over.
pub proof fn law_fades_join_neighbours(ppm: u32)
    ensures
        band_of(ppm) matches Band::Fade { low, high, .. } ==> {
            ||| low == 420 && high == 650
            ||| low == 650 && high == 1000
            ||| low == 1000 && high == 1500
        },
        band_of(ppm) is Fade <==> !is_nan(ppm) && scaled_int(420) < scaled(ppm) <= scaled_int(1500),
{
}

/// The scale is blue, green, yellow and red, each in its own channels.
pub proof fn law_colors_of_the_stops()
    ensures
        blue().r == 0 && blue().g == 0 && blue().b > 0,
        green().r == 0 && green().g > 0 && green().b == 0,
        yellow().r > 0 && yellow().g > 0 && yellow().b == 0,
        red().r > 0 && red().g == 0 && red().b == 0,
{
}

/// A bit of the waveform is a bit of its byte, the most significant one first.
pub proof fn law_waveform_goes_out_high_bit_first(buf: Seq<u8>, p: int)
    requires
        0 <= p < 8 * buf.len(),
    ensures
        spi_bit(buf, p) == ((buf[p / 8] >> ((7 - p % 8) as u8)) & 1 == 1),
{
    let byte = buf[p / 8];
    let k = (p % 8) as u8;
    assert(k < 8 ==> ((byte & (0x80u8 >> k) != 0) == ((byte >> ((7 - k) as u8)) & 1 == 1)))
        by (bit_vector);
}

/// The three bits of the waveform for pixel bit `k`, counted from the first that goes out:
/// high, the bit, low.
pub open spec fn carries(buf: Seq<u8>, k: int, bit: bool) -> bool {
    &&& spi_bit(buf, 3 * k)
    &&& spi_bit(buf, 3 * k + 1) == bit
    &&& !spi_bit(buf, 3 * k + 2)
}

/// The waveform holds bit `k` of each channel, counted from the high one: green, red, blue.
pub open spec fn carries_color(buf: Seq<u8>, k: int, color: Color) -> bool {
    &&& carries(buf, k, (color.g >> ((7 - k) as u8)) & 1 == 1)
    &&& carries(buf, 8 + k, (color.r >> ((7 - k) as u8)) & 1 == 1)
    &&& carries(buf, 16 + k, (color.b >> ((7 - k) as u8)) & 1 == 1)
}

/// A color goes out as its green, its red and its blue channel, each with its high bit
/// first.
pub proof fn law_color_goes_out_green_red_blue(color: Color, buf: Seq<u8>, k: int)
    requires
        buf.len() == 9,
        forall|p: int|
            0 <= p < 72 ==> #[trigger] spi_bit(buf, p) == wave_bit(
                (color.g * 0x1_0000 + color.r * 0x100 + color.b) as u32,
                p,
            ),
        0 <= k < 8,
    ensures
        carries(buf, k, (color.g >> ((7 - k) as u8)) & 1 == 1),
        carries(buf, 8 + k, (color.r >> ((7 - k) as u8)) & 1 == 1),
        carries(buf, 16 + k, (color.b >> ((7 - k) as u8)) & 1 == 1),
{
    let g = color.g;
    let r = color.r;
    let b = color.b;
    let word = (g * 0x1_0000 + r * 0x100 + b) as u32;
    let j = (7 - k) as u32;
    let i = (7 - k) as u8;
    assert(word == g as u32 * 0x1_0000 + r as u32 * 0x100 + b as u32);
    assert({
        &&& ((word >> ((16 + j) as u32)) & 1 == 1) == ((g >> i) & 1 == 1)
        &&& ((word >> ((8 + j) as u32)) & 1 == 1) == ((r >> i) & 1 == 1)
        &&& ((word >> j) & 1 == 1) == ((b >> i) & 1 == 1)
    }) by (bit_vector)
        requires
            word == g as u32 * 0x1_0000 + r as u32 * 0x100 + b as u32,
            j < 8,
            i as u32 == j,
    ;
    assert(spi_bit(buf, 3 * k) && spi_bit(buf, 3 * (8 + k)) && spi_bit(buf, 3 * (16 + k)));
    assert((3 * k + 1) / 3 == k && (3 * k + 1) % 3 == 1);
    assert((3 * (8 + k) + 1) / 3 == 8 + k && (3 * (8 + k) + 1) % 3 == 1);
    assert((3 * (16 + k) + 1) / 3 == 16 + k && (3 * (16 + k) + 1) % 3 == 1);
    assert(23 - k == 16 + j && 23 - (8 + k) == 8 + j && 23 - (16 + k) == j);
    assert(!spi_bit(buf, 3 * k + 2));
    assert(!spi_bit(buf, 3 * (8 + k) + 2));
    assert(!spi_bit(buf, 3 * (16 + k) + 2));
}

/// The waveform determines the pixel: two words with the same waveform have the
/// same 24 bits.
pub proof fn law_waveform_determines_pixel(a: u32, b: u32)
    requires
        forall|p: int| 0 <= p < 72 ==> #[trigger] wave_bit(a, p) == wave_bit(b, p),
    ensures
        a % 0x100_0000 == b % 0x100_0000,
{
    assert forall|i: u32| i < 24 implies ((a >> i) & 1 == 1) == ((b >> i) & 1 == 1) by {
        let p = 3 * (23 - i) + 1;
        assert(p % 3 == 1 && 23 - p / 3 == i);
        assert(wave_bit(a, p) == wave_bit(b, p));
    }
    lemma_low_bits_agree(a, b, 24);
    assert(a & 0xff_ffff == b & 0xff_ffff ==> a % 0x100_0000 == b % 0x100_0000) by (bit_vector);
    assert((1u32 << 24) - 1 == 0xff_ffff) by (bit_vector);
}

/// Words that agree in each of the `n` lowest bits agree in all of them at once.
proof fn lemma_low_bits_agree(a: u32, b: u32, n: u32)
    requires
        n <= 24,
        forall|i: u32| i < n ==> ((a >> i) & 1 == 1) == ((b >> i) & 1 == 1),
    ensures
        a & ((1u32 << n) - 1) as u32 == b & ((1u32 << n) - 1) as u32,
    decreases n,
{
    if n == 0 {
        assert(a & ((1u32 << 0) - 1) as u32 == b & ((1u32 << 0) - 1) as u32) by (bit_vector);
    } else {
        let m: u32 = (n - 1) as u32;
        lemma_low_bits_agree(a, b, m);
        assert(((a >> m) & 1 == 1) == ((b >> m) & 1 == 1));
        assert(a & ((1u32 << n) - 1) as u32 == b & ((1u32 << n) - 1) as u32) by (bit_vector)
            requires
                m < 24,
                n == m + 1,
                ((a >> m) & 1 == 1) == ((b >> m) & 1 == 1),
                a & ((1u32 << m) - 1) as u32 == b & ((1u32 << m) - 1) as u32,
        ;
    }
}

} // verus!
