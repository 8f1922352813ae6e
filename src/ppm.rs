//! The plain-text PPM encoding of a picture: a header, then one line of three
//! decimal samples per pixel.
use vstd::prelude::*;

verus! {

/// The decimal digits of `n`, as ASCII, without leading zeros.
pub open spec fn decimal(n: nat) -> Seq<u8>
    decreases n,
{
    if n < 10 {
        seq![(48 + n) as u8]
    } else {
        decimal(n / 10).push((48 + n % 10) as u8)
    }
}

/// The line of one pixel: its red, green and blue samples in decimal,
/// separated by spaces.
pub open spec fn pixel_line(rgb: Seq<u8>) -> Seq<u8> {
    decimal(rgb[0] as nat) + seq![32u8] + decimal(rgb[1] as nat) + seq![32u8] + decimal(
        rgb[2] as nat,
    ) + seq![10u8]
}

/// The header of a picture `width` by `height` pixels with samples up to 255.
pub open spec fn header(width: nat, height: nat) -> Seq<u8> {
    seq![80u8, 51u8, 10u8] + decimal(width) + seq![32u8] + decimal(height) + seq![
        10u8,
        50u8,
        53u8,
        53u8,
        10u8,
    ]
}

/// Appends the decimal digits of `n`.
pub fn push_decimal(out: &mut Vec<u8>, n: u64)
    ensures
        final(out)@ == old(out)@ + decimal(n as nat),
    decreases n,
{
    if n >= 10 {
        push_decimal(out, n / 10);
    }
    out.push((48 + n % 10) as u8);
    assert(final(out)@ =~= old(out)@ + decimal(n as nat)) by {
        if n >= 10 {
            assert(decimal(n as nat) == decimal((n / 10) as nat).push((48 + n % 10) as u8));
        }
    }
}

/// Appends the line of pixel `rgb`.
pub fn write_color(out: &mut Vec<u8>, rgb: [u8; 3])
    ensures
        final(out)@ == old(out)@ + pixel_line(rgb@),
{
    push_decimal(out, rgb[0] as u64);
    out.push(32);
    push_decimal(out, rgb[1] as u64);
    out.push(32);
    push_decimal(out, rgb[2] as u64);
    out.push(10);
    assert(final(out)@ =~= old(out)@ + pixel_line(rgb@));
}

/// The header of a picture `width` by `height` pixels.
pub fn ppm_header(width: u64, height: u64) -> (r: Vec<u8>)
    ensures
        r@ == header(width as nat, height as nat),
{
    let mut r: Vec<u8> = Vec::new();
    r.push(80);
    r.push(51);
    r.push(10);
    push_decimal(&mut r, width);
    r.push(32);
    push_decimal(&mut r, height);
    r.push(10);
    r.push(50);
    r.push(53);
    r.push(53);
    r.push(10);
    assert(r@ =~= header(width as nat, height as nat));
    r
}

} // verus!
