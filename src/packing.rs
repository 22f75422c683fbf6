use crate::quantize::Colour;
use vstd::prelude::*;

verus! {

/// `floor(log2(x))`, with 0 for `x < 2`.
pub open spec fn floor_log2(x: nat) -> nat
    decreases x,
{
    if x < 2 {
        0
    } else {
        1 + floor_log2(x / 2)
    }
}

/// Width in bits of one channel on the bus for `n` levels: `floor(log2(n + 1))`.
pub open spec fn bus_bits_spec(n: u8) -> nat {
    floor_log2(n as nat + 1)
}

/// Whole bytes needed for three channels of `bits` bits each.
pub open spec fn pixel_data_bytes_spec(bits: nat) -> nat {
    (3 * bits + 7) / 8
}

/// The 32-bit word of a pixel: red shifted by `2 * bits`, green by `bits`,
/// blue unshifted, combined with bitwise or.
pub open spec fn packed_word(p: Colour, bits: u32) -> u32 {
    ((p.red as u32) << (2 * bits) as u32) | ((p.green as u32) << bits) | (p.blue as u32)
}

/// Byte `i` of `w`, counting from the least significant byte.
pub open spec fn word_byte(w: u32, i: nat) -> u8 {
    ((w >> (8 * i) as u32) & 0xff) as u8
}

/// The lowest `count` bytes of a pixel's word, most significant first.
pub open spec fn pixel_bytes_spec(p: Colour, bits: u32, count: nat) -> Seq<u8> {
    Seq::new(count, |j: int| word_byte(packed_word(p, bits), (count - 1 - j) as nat))
}

/// The byte stream of a sequence of pixels, `count` bytes each, in order.
pub open spec fn dump_spec(pixels: Seq<Colour>, bits: u32, count: nat) -> Seq<u8>
    decreases pixels.len(),
{
    if pixels.len() == 0 {
        Seq::empty()
    } else {
        dump_spec(pixels.drop_last(), bits, count) + pixel_bytes_spec(pixels.last(), bits, count)
    }
}

/// The ASCII code of a lowercase hexadecimal digit.
pub open spec fn hex_digit(d: u8) -> u8 {
    if d < 10 {
        (48 + d) as u8
    } else {
        (87 + d) as u8
    }
}

/// The text of a byte stream: per byte two lowercase hex digits and a space.
pub open spec fn hex_text_spec(bytes: Seq<u8>) -> Seq<u8>
    decreases bytes.len(),
{
    if bytes.len() == 0 {
        Seq::empty()
    } else {
        hex_text_spec(bytes.drop_last()) + seq![
            hex_digit(bytes.last() / 16),
            hex_digit(bytes.last() % 16),
            32u8,
        ]
    }
}

proof fn lemma_floor_log2_monotone(x: nat, y: nat)
    requires
        x <= y,
    ensures
        floor_log2(x) <= floor_log2(y),
    decreases y,
{
    if x >= 2 {
        lemma_floor_log2_monotone(x / 2, y / 2);
    }
}

proof fn lemma_floor_log2_at_most_8(x: nat)
    requires
        x <= 256,
    ensures
        floor_log2(x) <= 8,
{
    lemma_floor_log2_monotone(x, 256);
    reveal_with_fuel(floor_log2, 10);
}

/// The bus width never shrinks as the number of levels grows.
pub proof fn lemma_bus_bits_monotone(n: u8, m: u8)
    requires
        n <= m,
    ensures
        bus_bits_spec(n) <= bus_bits_spec(m),
{
    lemma_floor_log2_monotone(n as nat + 1, m as nat + 1);
}

/// The byte stream holds `count` bytes per pixel.
pub proof fn lemma_dump_length(pixels: Seq<Colour>, bits: u32, count: nat)
    ensures
        dump_spec(pixels, bits, count).len() == pixels.len() * count,
    decreases pixels.len(),
{
    if pixels.len() > 0 {
        lemma_dump_length(pixels.drop_last(), bits, count);
        assert((pixels.len() - 1) * count + count == pixels.len() * count) by (nonlinear_arith);
    }
}

/// Byte `j` of pixel `k` stands at `k * count + j` in the byte stream.
pub proof fn lemma_dump_index(pixels: Seq<Colour>, bits: u32, count: nat, k: int, j: int)
    requires
        0 <= k < pixels.len(),
        0 <= j < count,
    ensures
        dump_spec(pixels, bits, count)[k * count + j] == pixel_bytes_spec(pixels[k], bits, count)[j],
    decreases pixels.len(),
{
    let pre = pixels.drop_last();
    lemma_dump_length(pre, bits, count);
    if k < pixels.len() - 1 {
        assert(k * count + j < pre.len() * count) by (nonlinear_arith)
            requires
                0 <= k < pre.len(),
                0 <= j < count,
        ;
        lemma_dump_index(pre, bits, count, k, j);
    }
}

/// The hex text holds three characters per byte.
pub proof fn lemma_hex_text_length(bytes: Seq<u8>)
    ensures
        hex_text_spec(bytes).len() == 3 * bytes.len(),
    decreases bytes.len(),
{
    if bytes.len() > 0 {
        lemma_hex_text_length(bytes.drop_last());
    }
}

/// Byte `i` is written at `3 * i` as its high digit, its low digit, and a space.
pub proof fn lemma_hex_text_index(bytes: Seq<u8>, i: int)
    requires
        0 <= i < bytes.len(),
    ensures
        hex_text_spec(bytes)[3 * i] == hex_digit(bytes[i] / 16),
        hex_text_spec(bytes)[3 * i + 1] == hex_digit(bytes[i] % 16),
        hex_text_spec(bytes)[3 * i + 2] == 32u8,
    decreases bytes.len(),
{
    lemma_hex_text_length(bytes.drop_last());
    if i < bytes.len() - 1 {
        lemma_hex_text_index(bytes.drop_last(), i);
    }
}

/// With 15 levels a channel is 4 bits wide and a pixel takes 2 bytes: its
/// word's second byte then its lowest byte, so red fills the low nibble of
/// the first byte, and green and blue the high and low nibbles of the second.
/// The text holds 6 characters per pixel.
pub proof fn lemma_fifteen_levels_two_bytes(pixels: Seq<Colour>)
    ensures
        bus_bits_spec(15) == 4,
        pixel_data_bytes_spec(4) == 2,
        dump_spec(pixels, 4, 2).len() == 2 * pixels.len(),
        hex_text_spec(dump_spec(pixels, 4, 2)).len() == 6 * pixels.len(),
        forall|k: int|
            0 <= k < pixels.len() ==> #[trigger] dump_spec(pixels, 4, 2)[2 * k] == word_byte(
                packed_word(pixels[k], 4),
                1,
            ) && dump_spec(pixels, 4, 2)[2 * k + 1] == word_byte(packed_word(pixels[k], 4), 0),
{
    reveal_with_fuel(floor_log2, 6);
    lemma_dump_length(pixels, 4, 2);
    lemma_hex_text_length(dump_spec(pixels, 4, 2));
    assert forall|k: int| 0 <= k < pixels.len() implies #[trigger] dump_spec(pixels, 4, 2)[2 * k]
        == word_byte(packed_word(pixels[k], 4), 1) && dump_spec(pixels, 4, 2)[2 * k + 1]
        == word_byte(packed_word(pixels[k], 4), 0) by {
        lemma_dump_index(pixels, 4, 2, k, 0);
        lemma_dump_index(pixels, 4, 2, k, 1);
        assert(k * 2 == 2 * k);
    }
}

/// Bits per channel on the bus for `n` levels: `floor(log2(n + 1))`.
pub fn bus_bits(n: u8) -> (r: u8)
    ensures
        r == bus_bits_spec(n),
        r <= 8,
{
    let mut x: u16 = n as u16 + 1;
    let mut bits: u8 = 0;
    proof {
        lemma_floor_log2_at_most_8(x as nat);
    }
    while x >= 2
        invariant
            1 <= x <= 256,
            bits + floor_log2(x as nat) == floor_log2(n as nat + 1),
            bits + floor_log2(x as nat) <= 8,
        decreases x,
    {
        x = x / 2;
        bits = bits + 1;
    }
    bits
}

/// Whole bytes that one pixel of three `bus_bits`-wide channels takes.
pub fn pixel_data_bytes(bus_bits: u8) -> (r: u8)
    ensures
        r == pixel_data_bytes_spec(bus_bits as nat),
{
    ((3 * bus_bits as u32 + 7) / 8) as u8
}

/// Packs the channels of `p` into one word, red most significant.
pub fn pack_pixel(p: Colour, bus_bits: u8) -> (r: u32)
    requires
        bus_bits <= 8,
    ensures
        r == packed_word(p, bus_bits as u32),
{
    let bits: u32 = bus_bits as u32;
    (p.red as u32) << (2 * bits) | (p.green as u32) << bits | (p.blue as u32)
}

/// Appends the lowest `count` bytes of the word of `p` to `out`, most
/// significant first.
pub fn push_pixel_bytes(out: &mut Vec<u8>, p: Colour, bus_bits: u8, count: u8)
    requires
        bus_bits <= 8,
        count <= 4,
    ensures
        final(out)@ == old(out)@ + pixel_bytes_spec(p, bus_bits as u32, count as nat),
{
    let word = pack_pixel(p, bus_bits);
    let ghost start = out@;
    let mut i: u8 = count;
    while i > 0
        invariant
            i <= count <= 4,
            word == packed_word(p, bus_bits as u32),
            out@ =~= start + pixel_bytes_spec(p, bus_bits as u32, count as nat).take(
                (count - i) as int,
            ),
        decreases i,
    {
        i = i - 1;
        let masked: u32 = (word >> (8 * i as u32)) & 0xff;
        assert(masked <= 0xff) by (bit_vector)
            requires
                masked == (word >> (8 * i as u32)) & 0xff,
        ;
        let byte: u8 = masked as u8;
        assert(byte == word_byte(word, i as nat));
        assert(byte == pixel_bytes_spec(p, bus_bits as u32, count as nat)[count - 1 - i]);
        out.push(byte);
    }
    assert(pixel_bytes_spec(p, bus_bits as u32, count as nat).take(count as int)
        =~= pixel_bytes_spec(p, bus_bits as u32, count as nat));
}

/// The byte stream of `pixels` quantized to `n` levels (bus mode): each pixel
/// packed with `bus_bits(n)` bits per channel, of which the lowest
/// `pixel_data_bytes` bytes are kept, most significant first.
pub fn pixels_dump(pixels: &Vec<Colour>, n: u8) -> (r: Vec<u8>)
    ensures
        r@ == dump_spec(
            pixels@,
            bus_bits_spec(n) as u32,
            pixel_data_bytes_spec(bus_bits_spec(n)),
        ),
{
    let bits = bus_bits(n);
    let count = pixel_data_bytes(bits);
    let mut out: Vec<u8> = Vec::new();
    let mut i: usize = 0;
    while i < pixels.len()
        invariant
            bits == bus_bits_spec(n),
            bits <= 8,
            count == pixel_data_bytes_spec(bits as nat),
            count <= 3,
            i <= pixels@.len(),
            out@ == dump_spec(pixels@.take(i as int), bits as u32, count as nat),
        decreases pixels.len() - i,
    {
        push_pixel_bytes(&mut out, pixels[i], bits, count);
        assert(pixels@.take(i + 1).drop_last() =~= pixels@.take(i as int));
        i = i + 1;
    }
    assert(pixels@.take(i as int) =~= pixels@);
    out
}

/// Appends the two lowercase hex digits of `byte` and a space to `out`.
fn push_hex(out: &mut Vec<u8>, byte: u8)
    ensures
        final(out)@ == old(out)@ + seq![hex_digit(byte / 16), hex_digit(byte % 16), 32u8],
{
    let hi: u8 = byte / 16;
    let lo: u8 = byte % 16;
    out.push(if hi < 10 { 48 + hi } else { 87 + hi });
    out.push(if lo < 10 { 48 + lo } else { 87 + lo });
    out.push(32u8);
}

/// The hex text of `bytes`: for each byte two lowercase hex digits and a
/// trailing space, in order.
pub fn hex_text(bytes: &Vec<u8>) -> (r: Vec<u8>)
    ensures
        r@ == hex_text_spec(bytes@),
{
    let mut out: Vec<u8> = Vec::new();
    let mut i: usize = 0;
    while i < bytes.len()
        invariant
            i <= bytes@.len(),
            out@ == hex_text_spec(bytes@.take(i as int)),
        decreases bytes.len() - i,
    {
        push_hex(&mut out, bytes[i]);
        assert(bytes@.take(i + 1).drop_last() =~= bytes@.take(i as int));
        i = i + 1;
    }
    assert(bytes@.take(i as int) =~= bytes@);
    out
}

} // verus!
