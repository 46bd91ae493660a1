//! The writer of the plain-text pixel map: a header line, then the rows of
//! the image from the top, each pixel as three decimal numbers.

use crate::shader::Rgb;
use vstd::prelude::*;

verus! {

/// The largest channel value, as the header announces it.
pub const MAX_VALUE: usize = 255;

/// The byte between two numbers.
pub const SPACE: u8 = 32;

/// The byte that ends a line.
pub const NEWLINE: u8 = 10;

/// The byte of the decimal digit `d`.
pub open spec fn digit(d: nat) -> u8 {
    (48 + d) as u8
}

/// The decimal notation of `n`, without leading zeros.
pub open spec fn decimal(n: nat) -> Seq<u8>
    decreases n,
{
    if n < 10 {
        seq![digit(n)]
    } else {
        decimal(n / 10).push(digit(n % 10))
    }
}

/// The header line: the format's tag, the width, the height and the largest
/// channel value.
pub open spec fn header(width: nat, height: nat) -> Seq<u8> {
    seq![80u8, 51u8, SPACE] + decimal(width) + seq![SPACE] + decimal(height) + seq![SPACE]
        + decimal(MAX_VALUE as nat) + seq![NEWLINE]
}

/// One pixel: its three channels, a space after each.
pub open spec fn triple(c: Rgb<u8>) -> Seq<u8> {
    decimal(c.r as nat) + seq![SPACE] + decimal(c.g as nat) + seq![SPACE] + decimal(c.b as nat)
        + seq![SPACE]
}

/// The pixels of a run, one after the other.
pub open spec fn triples(pixels: Seq<Rgb<u8>>) -> Seq<u8>
    decreases pixels.len(),
{
    if pixels.len() == 0 {
        Seq::empty()
    } else {
        triples(pixels.drop_last()) + triple(pixels.last())
    }
}

/// The first `count` rows of the image, each ended by a newline.
pub open spec fn rows(width: nat, pixels: Seq<Rgb<u8>>, count: nat) -> Seq<u8>
    decreases count,
{
    if count == 0 {
        Seq::empty()
    } else {
        let above = (count - 1) as nat;
        rows(width, pixels, above) + triples(
            pixels.subrange((above * width) as int, (count * width) as int),
        ) + seq![NEWLINE]
    }
}

/// The whole text for an image of `width` by `height` pixels in row-major
/// order.
pub open spec fn ppm_text(width: nat, height: nat, pixels: Seq<Rgb<u8>>) -> Seq<u8> {
    header(width, height) + rows(width, pixels, height)
}

/// The number of times that `byte` occurs in `text`.
pub open spec fn occurrences(text: Seq<u8>, byte: u8) -> nat
    decreases text.len(),
{
    if text.len() == 0 {
        0
    } else {
        occurrences(text.drop_last(), byte) + if text.last() == byte {
            1nat
        } else {
            0nat
        }
    }
}

/// The occurrences in two texts, one after the other, add up.
pub proof fn lemma_occurrences_add(a: Seq<u8>, b: Seq<u8>, byte: u8)
    ensures
        occurrences(a + b, byte) == occurrences(a, byte) + occurrences(b, byte),
    decreases b.len(),
{
    if b.len() == 0 {
        assert(a + b =~= a);
    } else {
        assert((a + b).drop_last() =~= a + b.drop_last());
        lemma_occurrences_add(a, b.drop_last(), byte);
    }
}

/// A text of one byte holds that byte once and no other.
proof fn lemma_occurrences_one(b: u8, byte: u8)
    ensures
        occurrences(seq![b], byte) == if b == byte {
            1nat
        } else {
            0nat
        },
{
    assert(seq![b].drop_last() =~= Seq::<u8>::empty());
    reveal_with_fuel(occurrences, 2);
}

/// Decimal notation holds digits only: neither a space nor a newline.
pub proof fn lemma_decimal_is_digits(n: nat)
    ensures
        decimal(n).len() >= 1,
        forall|i: int| 0 <= i < decimal(n).len() ==> 48 <= #[trigger] decimal(n)[i] <= 57,
        occurrences(decimal(n), SPACE) == 0,
        occurrences(decimal(n), NEWLINE) == 0,
    decreases n,
{
    if n < 10 {
        lemma_occurrences_one(digit(n), SPACE);
        lemma_occurrences_one(digit(n), NEWLINE);
    } else {
        lemma_decimal_is_digits(n / 10);
        assert(decimal(n).drop_last() =~= decimal(n / 10));
    }
}

/// One pixel takes three spaces and no newline.
proof fn lemma_triple_shape(c: Rgb<u8>)
    ensures
        occurrences(triple(c), SPACE) == 3,
        occurrences(triple(c), NEWLINE) == 0,
{
    let r = decimal(c.r as nat);
    let g = decimal(c.g as nat);
    let b = decimal(c.b as nat);
    let sp = seq![SPACE];
    lemma_decimal_is_digits(c.r as nat);
    lemma_decimal_is_digits(c.g as nat);
    lemma_decimal_is_digits(c.b as nat);
    lemma_occurrences_one(SPACE, SPACE);
    lemma_occurrences_one(SPACE, NEWLINE);
    lemma_occurrences_add(r, sp, SPACE);
    lemma_occurrences_add(r + sp, g, SPACE);
    lemma_occurrences_add(r + sp + g, sp, SPACE);
    lemma_occurrences_add(r + sp + g + sp, b, SPACE);
    lemma_occurrences_add(r + sp + g + sp + b, sp, SPACE);
    lemma_occurrences_add(r, sp, NEWLINE);
    lemma_occurrences_add(r + sp, g, NEWLINE);
    lemma_occurrences_add(r + sp + g, sp, NEWLINE);
    lemma_occurrences_add(r + sp + g + sp, b, NEWLINE);
    lemma_occurrences_add(r + sp + g + sp + b, sp, NEWLINE);
}

/// A run of pixels takes three spaces for each pixel and no newline.
proof fn lemma_triples_shape(pixels: Seq<Rgb<u8>>)
    ensures
        occurrences(triples(pixels), SPACE) == 3 * pixels.len(),
        occurrences(triples(pixels), NEWLINE) == 0,
    decreases pixels.len(),
{
    if pixels.len() > 0 {
        lemma_triples_shape(pixels.drop_last());
        lemma_triple_shape(pixels.last());
        lemma_occurrences_add(triples(pixels.drop_last()), triple(pixels.last()), SPACE);
        lemma_occurrences_add(triples(pixels.drop_last()), triple(pixels.last()), NEWLINE);
    }
}

/// The header is one line with three spaces.
proof fn lemma_header_shape(width: nat, height: nat)
    ensures
        occurrences(header(width, height), SPACE) == 3,
        occurrences(header(width, height), NEWLINE) == 1,
        header(width, height).last() == NEWLINE,
{
    let tag = seq![80u8, 51u8, SPACE];
    let w = decimal(width);
    let h = decimal(height);
    let m = decimal(MAX_VALUE as nat);
    let sp = seq![SPACE];
    let nl = seq![NEWLINE];
    assert(tag =~= seq![80u8] + seq![51u8] + sp);
    lemma_occurrences_one(80u8, SPACE);
    lemma_occurrences_one(51u8, SPACE);
    lemma_occurrences_one(80u8, NEWLINE);
    lemma_occurrences_one(51u8, NEWLINE);
    lemma_occurrences_one(SPACE, SPACE);
    lemma_occurrences_one(SPACE, NEWLINE);
    lemma_occurrences_one(NEWLINE, SPACE);
    lemma_occurrences_one(NEWLINE, NEWLINE);
    lemma_decimal_is_digits(width);
    lemma_decimal_is_digits(height);
    lemma_decimal_is_digits(MAX_VALUE as nat);
    lemma_occurrences_add(seq![80u8], seq![51u8], SPACE);
    lemma_occurrences_add(seq![80u8] + seq![51u8], sp, SPACE);
    lemma_occurrences_add(tag, w, SPACE);
    lemma_occurrences_add(tag + w, sp, SPACE);
    lemma_occurrences_add(tag + w + sp, h, SPACE);
    lemma_occurrences_add(tag + w + sp + h, sp, SPACE);
    lemma_occurrences_add(tag + w + sp + h + sp, m, SPACE);
    lemma_occurrences_add(tag + w + sp + h + sp + m, nl, SPACE);
    lemma_occurrences_add(seq![80u8], seq![51u8], NEWLINE);
    lemma_occurrences_add(seq![80u8] + seq![51u8], sp, NEWLINE);
    lemma_occurrences_add(tag, w, NEWLINE);
    lemma_occurrences_add(tag + w, sp, NEWLINE);
    lemma_occurrences_add(tag + w + sp, h, NEWLINE);
    lemma_occurrences_add(tag + w + sp + h, sp, NEWLINE);
    lemma_occurrences_add(tag + w + sp + h + sp, m, NEWLINE);
    lemma_occurrences_add(tag + w + sp + h + sp + m, nl, NEWLINE);
}

/// The first `count` rows take a newline each, and three spaces for each of
/// their pixels.
proof fn lemma_rows_shape(width: nat, pixels: Seq<Rgb<u8>>, count: nat)
    requires
        count * width <= pixels.len(),
    ensures
        occurrences(rows(width, pixels, count), SPACE) == 3 * (count * width),
        occurrences(rows(width, pixels, count), NEWLINE) == count,
        count > 0 ==> rows(width, pixels, count).last() == NEWLINE,
    decreases count,
{
    if count > 0 {
        let above = (count - 1) as nat;
        assert(above * width + width == count * width) by (nonlinear_arith)
            requires
                above + 1 == count,
        ;
        let run = pixels.subrange((above * width) as int, (count * width) as int);
        let nl = seq![NEWLINE];
        lemma_rows_shape(width, pixels, above);
        lemma_triples_shape(run);
        lemma_occurrences_one(NEWLINE, SPACE);
        lemma_occurrences_one(NEWLINE, NEWLINE);
        lemma_occurrences_add(rows(width, pixels, above), triples(run), SPACE);
        lemma_occurrences_add(rows(width, pixels, above) + triples(run), nl, SPACE);
        lemma_occurrences_add(rows(width, pixels, above), triples(run), NEWLINE);
        lemma_occurrences_add(rows(width, pixels, above) + triples(run), nl, NEWLINE);
    } else {
        assert(count * width == 0) by (nonlinear_arith)
            requires
                count == 0,
        ;
    }
}

/// The text of an image is one header line and then one line for each row:
/// `height + 1` newlines, the last of them at the end. Each number is
/// followed by one space, but the largest channel value in the header: three
/// spaces in the header, and three for each pixel.
pub proof fn lemma_text_shape(width: nat, height: nat, pixels: Seq<Rgb<u8>>)
    requires
        pixels.len() == width * height,
    ensures
        occurrences(ppm_text(width, height, pixels), NEWLINE) == height + 1,
        occurrences(ppm_text(width, height, pixels), SPACE) == 3 + 3 * (width * height),
        ppm_text(width, height, pixels).last() == NEWLINE,
{
    assert(height * width == width * height) by (nonlinear_arith);
    lemma_header_shape(width, height);
    lemma_rows_shape(width, pixels, height);
    lemma_occurrences_add(header(width, height), rows(width, pixels, height), NEWLINE);
    lemma_occurrences_add(header(width, height), rows(width, pixels, height), SPACE);
}

/// Appends the decimal notation of `n`.
fn push_decimal(text: &mut Vec<u8>, n: usize)
    ensures
        final(text)@ == old(text)@ + decimal(n as nat),
    decreases n,
{
    if n >= 10 {
        push_decimal(text, n / 10);
    }
    let d: u8 = (n % 10) as u8;
    text.push(48 + d);
    assert(text@ =~= old(text)@ + decimal(n as nat));
}

/// Appends one pixel.
fn push_triple(text: &mut Vec<u8>, c: Rgb<u8>)
    ensures
        final(text)@ == old(text)@ + triple(c),
{
    push_decimal(text, c.r as usize);
    text.push(SPACE);
    push_decimal(text, c.g as usize);
    text.push(SPACE);
    push_decimal(text, c.b as usize);
    text.push(SPACE);
    assert(text@ =~= old(text)@ + triple(c));
}

/// The text of an image whose channels are bytes already.
fn emit(width: usize, height: usize, buf: &Vec<Rgb<u8>>) -> (text: Vec<u8>)
    requires
        buf.len() == width * height,
    ensures
        text@ == ppm_text(width as nat, height as nat, buf@),
{
    let mut text: Vec<u8> = Vec::new();
    text.push(80);
    text.push(51);
    text.push(SPACE);
    push_decimal(&mut text, width);
    text.push(SPACE);
    push_decimal(&mut text, height);
    text.push(SPACE);
    push_decimal(&mut text, MAX_VALUE);
    text.push(NEWLINE);
    assert(text@ =~= header(width as nat, height as nat));
    for y in 0..height
        invariant
            buf.len() == width * height,
            text@ == header(width as nat, height as nat) + rows(width as nat, buf@, y as nat),
    {
        let ghost done = text@;
        proof {
            assert(y * width + width <= width * height) by (nonlinear_arith)
                requires
                    y < height,
            ;
        }
        for x in 0..width
            invariant
                y < height,
                y * width + width <= width * height,
                buf.len() == width * height,
                text@ == done + triples(buf@.subrange(y * width, y * width + x)),
        {
            let c = buf[y * width + x];
            push_triple(&mut text, c);
            proof {
                let run = buf@.subrange(y * width, y * width + x + 1);
                assert(run.drop_last() =~= buf@.subrange(y * width, y * width + x));
                assert(run.last() == c);
                assert(text@ =~= done + triples(run));
            }
        }
        text.push(NEWLINE);
        proof {
            assert((y + 1) * width == y * width + width) by (nonlinear_arith);
            assert(text@ =~= header(width as nat, height as nat) + rows(
                width as nat,
                buf@,
                (y + 1) as nat,
            ));
        }
    }
    text
}

/// `quantize` may be called on every channel of every pixel.
pub open spec fn quantizable<T, Q: Fn(&T) -> u8>(quantize: &Q, colors: Seq<Rgb<T>>) -> bool {
    forall|k: int|
        0 <= k < colors.len() ==> {
            &&& call_requires(quantize, (&(#[trigger] colors[k]).r,))
            &&& call_requires(quantize, (&colors[k].g,))
            &&& call_requires(quantize, (&colors[k].b,))
        }
}

/// `bytes` holds, channel for channel, what `quantize` returns for `color`.
pub open spec fn quantizes<T, Q: Fn(&T) -> u8>(quantize: &Q, color: Rgb<T>, bytes: Rgb<u8>) -> bool {
    &&& call_ensures(quantize, (&color.r,), bytes.r)
    &&& call_ensures(quantize, (&color.g,), bytes.g)
    &&& call_ensures(quantize, (&color.b,), bytes.b)
}

/// `bytes` is the image `colors`, quantized pixel for pixel.
pub open spec fn quantized<T, Q: Fn(&T) -> u8>(
    quantize: &Q,
    colors: Seq<Rgb<T>>,
    bytes: Seq<Rgb<u8>>,
) -> bool {
    &&& bytes.len() == colors.len()
    &&& forall|k: int| 0 <= k < colors.len() ==> quantizes(quantize, colors[k], #[trigger] bytes[k])
}

/// `text` is the pixel map of the image `colors` under `quantize`.
pub open spec fn written<T, Q: Fn(&T) -> u8>(
    quantize: &Q,
    width: usize,
    height: usize,
    colors: Seq<Rgb<T>>,
    text: Seq<u8>,
) -> bool {
    exists|bytes: Seq<Rgb<u8>>|
        #[trigger] quantized(quantize, colors, bytes) && text == ppm_text(
            width as nat,
            height as nat,
            bytes,
        )
}

/// One text and no other: where `quantize` has one result for each channel,
/// `written` holds of a single text.
pub proof fn lemma_written_unique<T, Q: Fn(&T) -> u8>(
    quantize: &Q,
    width: usize,
    height: usize,
    colors: Seq<Rgb<T>>,
    first: Seq<u8>,
    second: Seq<u8>,
)
    requires
        written(quantize, width, height, colors, first),
        written(quantize, width, height, colors, second),
        forall|channel: T, a: u8, b: u8|
            #[trigger] call_ensures(quantize, (&channel,), a) && #[trigger] call_ensures(
                quantize,
                (&channel,),
                b,
            ) ==> a == b,
    ensures
        first == second,
{
    let a = choose|bytes: Seq<Rgb<u8>>|
        #[trigger] quantized(quantize, colors, bytes) && first == ppm_text(
            width as nat,
            height as nat,
            bytes,
        );
    let b = choose|bytes: Seq<Rgb<u8>>|
        #[trigger] quantized(quantize, colors, bytes) && second == ppm_text(
            width as nat,
            height as nat,
            bytes,
        );
    assert forall|k: int| 0 <= k < a.len() implies a[k] == b[k] by {
        assert(quantizes(quantize, colors[k], a[k]));
        assert(quantizes(quantize, colors[k], b[k]));
    }
    assert(a =~= b);
}

/// Writes the image as text: the line `P3 <width> <height> 255`, then for
/// each row from the top a line that holds, for each pixel from the left,
/// its red, green and blue value in decimal, each followed by a space. The
/// values are what `quantize` makes of the channels.
pub fn write<T, Q: Fn(&T) -> u8>(
    width: usize,
    height: usize,
    buf: &Vec<Rgb<T>>,
    quantize: &Q,
) -> (text: Vec<u8>)
    requires
        buf.len() == width * height,
        quantizable(quantize, buf@),
    ensures
        written(quantize, width, height, buf@, text@),
{
    let mut bytes: Vec<Rgb<u8>> = Vec::new();
    for k in 0..buf.len()
        invariant
            quantizable(quantize, buf@),
            quantized(quantize, buf@.take(k as int), bytes@),
    {
        let color = &buf[k];
        let pixel = Rgb { r: quantize(&color.r), g: quantize(&color.g), b: quantize(&color.b) };
        bytes.push(pixel);
    }
    assert(buf@.take(buf.len() as int) =~= buf@);
    emit(width, height, &bytes)
}

} // verus!
