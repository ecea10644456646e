//! Bidirectional transform between the console's packed 16-bit color words
//! and display-ready RGB colors, with a memoizing cache for both directions.
//!
//! A packed word holds three 5-bit channels (red in bits 0..5, green in bits
//! 5..10, blue in bits 10..15); bit 15 is reserved and ignored on decode.

use vstd::prelude::*;

verus! {

/// An RGB color with one byte per channel.
#[derive(Clone, Copy, PartialEq, Eq, Structural, Debug)]
pub struct Color {
    pub r: u8,
    pub g: u8,
    pub b: u8,
}

/// The red channel of a packed word, widened from 5 to 8 bits.
pub open spec fn decode_red(word: i32) -> u8 {
    ((word & 0x1f) as u8) << 3
}

/// The green channel of a packed word, widened from 5 to 8 bits.
pub open spec fn decode_green(word: i32) -> u8 {
    (((word >> 5) & 0x1f) as u8) << 3
}

/// The blue channel of a packed word, widened from 5 to 8 bits.
pub open spec fn decode_blue(word: i32) -> u8 {
    (((word >> 10) & 0x1f) as u8) << 3
}

/// The color a packed word decodes to. Total: every word, including one with
/// the reserved bit set, has a decoding.
pub open spec fn decode_spec(word: i32) -> Color {
    Color { r: decode_red(word), g: decode_green(word), b: decode_blue(word) }
}

/// Three 8-bit channels reduced to 5 bits each and packed into one word.
pub open spec fn encode_channels(r: u8, g: u8, b: u8) -> i32 {
    ((r >> 3) as i32) | (((g >> 3) as i32) << 5) | (((b >> 3) as i32) << 10)
}

/// The packed word a color encodes to. Lossy: the low 3 bits of each channel
/// are discarded.
pub open spec fn encode_spec(color: Color) -> i32 {
    encode_channels(color.r, color.g, color.b)
}

/// A channel value with its low 3 bits cleared: the precision that survives
/// one encode/decode trip.
pub open spec fn quantize_channel(v: u8) -> u8 {
    (v >> 3) << 3
}

/// A color reduced to the precision the packed format can hold.
pub open spec fn quantize(color: Color) -> Color {
    Color {
        r: quantize_channel(color.r),
        g: quantize_channel(color.g),
        b: quantize_channel(color.b),
    }
}

/// Decoding a packed word and encoding the result reproduces the word
/// exactly, for every word with the reserved bit clear.
pub proof fn lemma_encode_decode_roundtrip(word: i32)
    requires
        0 <= word < 0x8000,
    ensures
        encode_spec(decode_spec(word)) == word,
{
    assert(encode_channels(decode_red(word), decode_green(word), decode_blue(word)) == word)
        by (bit_vector)
        requires
            0 <= word < 0x8000,
    ;
}

proof fn lemma_decode_encode_channels(r: u8, g: u8, b: u8)
    by (bit_vector)
    ensures
        decode_red(encode_channels(r, g, b)) == quantize_channel(r),
        decode_green(encode_channels(r, g, b)) == quantize_channel(g),
        decode_blue(encode_channels(r, g, b)) == quantize_channel(b),
{
}

/// Encoding a color and decoding the result reproduces the color up to
/// channel quantization: each channel comes back with its low 3 bits cleared.
pub proof fn lemma_decode_encode_quantizes(color: Color)
    ensures
        decode_spec(encode_spec(color)) == quantize(color),
{
    lemma_decode_encode_channels(color.r, color.g, color.b);
}

/// Extract each 5-bit channel field of a packed word and widen it to the
/// 8-bit display range.
pub fn decode(word: i32) -> (color: Color)
    ensures
        color == decode_spec(word),
{
    let red_field: u8 = (word & 0x1f) as u8;
    let green_field: u8 = ((word >> 5) & 0x1f) as u8;
    let blue_field: u8 = ((word >> 10) & 0x1f) as u8;
    Color { r: red_field << 3, g: green_field << 3, b: blue_field << 3 }
}

/// Reduce each channel to the native 5-bit depth and pack the fields into one
/// word by shifting and OR-composition.
pub fn encode(color: Color) -> (word: i32)
    ensures
        word == encode_spec(color),
{
    let red_field: i32 = (color.r >> 3) as i32;
    let green_field: i32 = (color.g >> 3) as i32;
    let blue_field: i32 = (color.b >> 3) as i32;
    red_field | (green_field << 5) | (blue_field << 10)
}

/// Memoization of both codec directions. Unbounded by design: the word
/// domain is 16 bits and the roster of palettes is small and fixed.
pub struct GBAColorCache {
    to_rgb: Vec<(i32, Color)>,
    to_gba: Vec<(Color, i32)>,
}

impl GBAColorCache {
    /// Every cached pair agrees with the pure transform for its direction.
    pub closed spec fn wf(&self) -> bool {
        &&& forall|i: int|
            0 <= i < self.to_rgb@.len() ==> (#[trigger] self.to_rgb@[i]).1 == decode_spec(
                self.to_rgb@[i].0,
            )
        &&& forall|i: int|
            0 <= i < self.to_gba@.len() ==> (#[trigger] self.to_gba@[i]).1 == encode_spec(
                self.to_gba@[i].0,
            )
    }

    pub fn new() -> (cache: GBAColorCache)
        ensures
            cache.wf(),
    {
        GBAColorCache { to_rgb: Vec::new(), to_gba: Vec::new() }
    }

    /// Decode a packed word, answering from the cache when the word has been
    /// seen before and remembering the result otherwise.
    pub fn gba_to_rgb(&mut self, word: i32) -> (color: Color)
        requires
            old(self).wf(),
        ensures
            final(self).wf(),
            color == decode_spec(word),
    {
        let mut i: usize = 0;
        while i < self.to_rgb.len()
            invariant
                self.wf(),
                i <= self.to_rgb@.len(),
            decreases self.to_rgb@.len() - i,
        {
            if self.to_rgb[i].0 == word {
                return self.to_rgb[i].1;
            }
            i += 1;
        }
        let color = decode(word);
        self.to_rgb.push((word, color));
        color
    }

    /// Encode a color, answering from the cache when the color has been seen
    /// before and remembering the result otherwise.
    pub fn rgb_to_gba(&mut self, color: Color) -> (word: i32)
        requires
            old(self).wf(),
        ensures
            final(self).wf(),
            word == encode_spec(color),
    {
        let mut i: usize = 0;
        while i < self.to_gba.len()
            invariant
                self.wf(),
                i <= self.to_gba@.len(),
            decreases self.to_gba@.len() - i,
        {
            if self.to_gba[i].0 == color {
                return self.to_gba[i].1;
            }
            i += 1;
        }
        let word = encode(color);
        self.to_gba.push((color, word));
        word
    }
}

} // verus!
