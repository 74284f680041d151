use vstd::prelude::*;

verus! {

/// An 8-bit RGB pixel, as the image file stores it.
#[derive(Clone, Copy, Debug, PartialEq, Eq, Structural)]
pub struct Pixel {
    pub r: u8,
    pub g: u8,
    pub b: u8,
}

/// The ASCII digit for `d < 10`.
pub open spec fn digit(d: nat) -> u8 {
    (48 + d) as u8
}

/// The decimal digits of `n`, most significant first, without leading zeros.
pub open spec fn decimal(n: nat) -> Seq<u8>
    decreases n,
{
    if n < 10 {
        seq![digit(n)]
    } else {
        decimal(n / 10).push(digit(n % 10))
    }
}

/// `P3`, then `<width> <height>`, then the largest channel value `255`, each on a line.
pub open spec fn header_bytes(width: nat, height: nat) -> Seq<u8> {
    seq![80u8, 51u8, 10u8] + decimal(width) + seq![32u8] + decimal(height) + seq![10u8, 50u8, 53u8, 53u8, 10u8]
}

/// One pixel as the line `<r> <g> <b>`.
pub open spec fn pixel_bytes(p: Pixel) -> Seq<u8> {
    decimal(p.r as nat) + seq![32u8] + decimal(p.g as nat) + seq![32u8] + decimal(p.b as nat) + seq![10u8]
}

/// The pixel lines of `pixels`, in order.
pub open spec fn body_bytes(pixels: Seq<Pixel>) -> Seq<u8>
    decreases pixels.len(),
{
    if pixels.len() == 0 {
        Seq::empty()
    } else {
        body_bytes(pixels.drop_last()) + pixel_bytes(pixels.last())
    }
}

/// A whole ASCII image: the header and then one line per pixel.
pub open spec fn image_bytes(width: nat, height: nat, pixels: Seq<Pixel>) -> Seq<u8> {
    header_bytes(width, height) + body_bytes(pixels)
}

/// The number of line breaks in `s`.
pub open spec fn line_count(s: Seq<u8>) -> nat
    decreases s.len(),
{
    if s.len() == 0 {
        0
    } else {
        line_count(s.drop_last()) + if s.last() == 10u8 {
            1nat
        } else {
            0nat
        }
    }
}

proof fn lemma_line_count_add(a: Seq<u8>, b: Seq<u8>)
    ensures
        line_count(a + b) == line_count(a) + line_count(b),
    decreases b.len(),
{
    if b.len() == 0 {
        assert(a + b =~= a);
    } else {
        lemma_line_count_add(a, b.drop_last());
        assert((a + b).drop_last() =~= a + b.drop_last());
    }
}

proof fn lemma_decimal_has_no_line_break(n: nat)
    ensures
        line_count(decimal(n)) == 0,
    decreases n,
{
    assert(line_count(Seq::<u8>::empty()) == 0);
    assert(digit(n % 10) != 10u8);
    if n < 10 {
        assert(decimal(n).drop_last() =~= Seq::<u8>::empty());
    } else {
        lemma_decimal_has_no_line_break(n / 10);
        assert(decimal(n).drop_last() =~= decimal(n / 10));
    }
}

proof fn lemma_pixel_is_one_line(p: Pixel)
    ensures
        line_count(pixel_bytes(p)) == 1,
{
    let r = decimal(p.r as nat);
    let g = decimal(p.g as nat);
    let b = decimal(p.b as nat);
    let sp = seq![32u8];
    let nl = seq![10u8];
    lemma_decimal_has_no_line_break(p.r as nat);
    lemma_decimal_has_no_line_break(p.g as nat);
    lemma_decimal_has_no_line_break(p.b as nat);
    assert(line_count(Seq::<u8>::empty()) == 0);
    assert(sp.drop_last() =~= Seq::<u8>::empty());
    assert(nl.drop_last() =~= Seq::<u8>::empty());
    assert(line_count(sp) == 0);
    assert(line_count(nl) == 1);
    lemma_line_count_add(r, sp);
    lemma_line_count_add(r + sp, g);
    lemma_line_count_add(r + sp + g, sp);
    lemma_line_count_add(r + sp + g + sp, b);
    lemma_line_count_add(r + sp + g + sp + b, nl);
}

/// An image holds three header lines and then one line per pixel, so a
/// `width` by `height` image holds `3 + width * height` lines.
pub proof fn lemma_image_line_count(width: nat, height: nat, pixels: Seq<Pixel>)
    ensures
        line_count(image_bytes(width, height, pixels)) == 3 + pixels.len(),
    decreases pixels.len(),
{
    if pixels.len() == 0 {
        let w = decimal(width);
        let h = decimal(height);
        let a = seq![80u8, 51u8, 10u8];
        let sp = seq![32u8];
        let z = seq![10u8, 50u8, 53u8, 53u8, 10u8];
        lemma_decimal_has_no_line_break(width);
        lemma_decimal_has_no_line_break(height);
        reveal_with_fuel(line_count, 6);
        assert(line_count(a) == 1) by {
            assert(a.drop_last() =~= seq![80u8, 51u8]);
            assert(a.drop_last().drop_last() =~= seq![80u8]);
            assert(a.drop_last().drop_last().drop_last() =~= Seq::<u8>::empty());
        }
        assert(line_count(sp) == 0) by {
            assert(sp.drop_last() =~= Seq::<u8>::empty());
        }
        assert(line_count(z) == 2) by {
            assert(z.drop_last() =~= seq![10u8, 50u8, 53u8, 53u8]);
            assert(z.drop_last().drop_last() =~= seq![10u8, 50u8, 53u8]);
            assert(z.drop_last().drop_last().drop_last() =~= seq![10u8, 50u8]);
            assert(z.drop_last().drop_last().drop_last().drop_last() =~= seq![10u8]);
            assert(z.drop_last().drop_last().drop_last().drop_last().drop_last() =~= Seq::<u8>::empty());
        }
        lemma_line_count_add(a, w);
        lemma_line_count_add(a + w, sp);
        lemma_line_count_add(a + w + sp, h);
        lemma_line_count_add(a + w + sp + h, z);
        lemma_line_count_add(header_bytes(width, height), Seq::<u8>::empty());
    } else {
        lemma_image_line_count(width, height, pixels.drop_last());
        lemma_pixel_is_one_line(pixels.last());
        let head = header_bytes(width, height);
        let rest = body_bytes(pixels.drop_last());
        lemma_line_count_add(head, rest);
        lemma_line_count_add(rest, pixel_bytes(pixels.last()));
        lemma_line_count_add(head, rest + pixel_bytes(pixels.last()));
        assert(body_bytes(pixels) == rest + pixel_bytes(pixels.last()));
    }
}

/// Appends the decimal digits of `n` to `out`.
pub fn push_decimal(out: &mut Vec<u8>, n: u32)
    ensures
        final(out)@ == old(out)@ + decimal(n as nat),
    decreases n,
{
    if n >= 10 {
        push_decimal(out, n / 10);
    }
    out.push(48u8 + (n % 10) as u8);
}

/// Appends the header of a `width` by `height` image to `out`.
pub fn push_header(out: &mut Vec<u8>, width: u32, height: u32)
    ensures
        final(out)@ == old(out)@ + header_bytes(width as nat, height as nat),
{
    out.push(80u8);
    out.push(51u8);
    out.push(10u8);
    push_decimal(out, width);
    out.push(32u8);
    push_decimal(out, height);
    out.push(10u8);
    out.push(50u8);
    out.push(53u8);
    out.push(53u8);
    out.push(10u8);
    assert(final(out)@ =~= old(out)@ + header_bytes(width as nat, height as nat));
}

/// Appends the line of one pixel to `out`.
pub fn push_pixel(out: &mut Vec<u8>, p: Pixel)
    ensures
        final(out)@ == old(out)@ + pixel_bytes(p),
{
    push_decimal(out, p.r as u32);
    out.push(32u8);
    push_decimal(out, p.g as u32);
    out.push(32u8);
    push_decimal(out, p.b as u32);
    out.push(10u8);
    assert(final(out)@ =~= old(out)@ + pixel_bytes(p));
}

/// The header of a `width` by `height` image: `P3\n<width> <height>\n255\n`.
pub fn ppm_header(width: u32, height: u32) -> (r: Vec<u8>)
    ensures
        r@ == header_bytes(width as nat, height as nat),
{
    let mut out: Vec<u8> = Vec::new();
    push_header(&mut out, width, height);
    assert(out@ =~= header_bytes(width as nat, height as nat));
    out
}

/// The line `<r> <g> <b>\n` of one pixel.
pub fn pixel_line(p: Pixel) -> (r: Vec<u8>)
    ensures
        r@ == pixel_bytes(p),
{
    let mut out: Vec<u8> = Vec::new();
    push_pixel(&mut out, p);
    assert(out@ =~= pixel_bytes(p));
    out
}

/// A whole image: its header, then the pixels row by row, top row first, one
/// per line. `pixels` holds exactly `width * height` of them.
pub fn encode_image(width: u32, height: u32, pixels: &Vec<Pixel>) -> (r: Vec<u8>)
    requires
        pixels@.len() == width as nat * height as nat,
    ensures
        r@ == image_bytes(width as nat, height as nat, pixels@),
{
    let mut out: Vec<u8> = Vec::new();
    push_header(&mut out, width, height);
    let mut i: usize = 0;
    while i < pixels.len()
        invariant
            i <= pixels@.len(),
            out@ == header_bytes(width as nat, height as nat) + body_bytes(pixels@.take(i as int)),
        decreases pixels@.len() - i,
    {
        let p = pixels[i];
        push_pixel(&mut out, p);
        proof {
            let next = pixels@.take(i as int + 1);
            assert(next.drop_last() =~= pixels@.take(i as int));
            assert(next.last() == p);
            assert(out@ =~= header_bytes(width as nat, height as nat) + body_bytes(next));
        }
        i = i + 1;
    }
    assert(pixels@.take(i as int) =~= pixels@);
    out
}

} // verus!
