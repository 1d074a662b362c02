//! Finished pixels placed by their coordinates into an RGB raster of the
//! `image` crate.
use vstd::prelude::*;

verus! {

/// An RGB raster with 8 bits per channel, held in an `image::RgbImage`.
/// Its contents are known through `raster_pixels` and `raster_size`.
#[verifier::external_body]
pub struct Raster {
    img: image::RgbImage,
}

/// An 8-bit RGB colour: red, green, blue.
pub type Rgb8 = (u8, u8, u8);

/// A finished pixel: column, row and colour.
pub type PixelOut = (u32, u32, Rgb8);

/// What a raster holds: the colour at each in-bounds `(column, row)`.
pub uninterp spec fn raster_pixels(img: Raster) -> Map<(u32, u32), Rgb8>;

/// The width and height that a raster was made with.
pub uninterp spec fn raster_size(img: Raster) -> (u32, u32);

/// A black raster of the given size.
pub open spec fn blank(width: u32, height: u32) -> Map<(u32, u32), Rgb8> {
    Map::new(|k: (u32, u32)| k.0 < width && k.1 < height, |k: (u32, u32)| (0u8, 0u8, 0u8))
}

/// `base` with the pixels of `s` written in order, a later write at the same
/// coordinates replacing an earlier one.
pub open spec fn placed(base: Map<(u32, u32), Rgb8>, s: Seq<PixelOut>) -> Map<(u32, u32), Rgb8>
    decreases s.len(),
{
    if s.len() == 0 {
        base
    } else {
        let last = s.last();
        placed(base, s.drop_last()).insert((last.0, last.1), last.2)
    }
}

/// Every pixel lies inside a `width` x `height` raster.
pub open spec fn all_in_bounds(s: Seq<PixelOut>, width: u32, height: u32) -> bool {
    forall|i: int| 0 <= i < s.len() ==> (#[trigger] s[i]).0 < width && s[i].1 < height
}

/// No two pixels share coordinates.
pub open spec fn distinct_coords(s: Seq<PixelOut>) -> bool {
    forall|i: int, j: int|
        0 <= i < s.len() && 0 <= j < s.len() && i != j ==> ((#[trigger] s[i]).0, s[i].1) != (
        (#[trigger] s[j]).0,
        s[j].1,
    )
}

/// Why a raster cannot be made.
#[derive(Clone, Copy, Debug, PartialEq, Eq, Structural)]
pub enum RasterError {
    /// Three bytes per pixel do not fit in memory indices.
    TooLarge,
    /// Some pixel lies outside the raster.
    OutOfBounds,
}

/// The raster's byte count fits in a `usize`, and so does the byte count of
/// one row, which the constructor computes first.
pub open spec fn raster_fits(width: u32, height: u32) -> bool {
    &&& 3 * width <= usize::MAX
    &&& 3 * width * height <= usize::MAX
}

/// Relies on `image::ImageBuffer::new`: a raster of the given size with every
/// sample zero. It panics where `3 * width`, or then the byte count,
/// overflows `usize`.
#[verifier::external_body]
fn new_raster(width: u32, height: u32) -> (r: Raster)
    requires
        raster_fits(width, height),
    ensures
        raster_size(r) == (width, height),
        raster_pixels(r) == blank(width, height),
{
    Raster { img: image::RgbImage::new(width, height) }
}

/// Relies on `image::ImageBuffer::put_pixel`: the pixel at `(x, y)` becomes
/// `c`, nothing else changes. It panics outside the raster.
#[verifier::external_body]
fn put_raster_pixel(img: &mut Raster, x: u32, y: u32, c: Rgb8)
    requires
        x < raster_size(*old(img)).0,
        y < raster_size(*old(img)).1,
    ensures
        raster_size(*final(img)) == raster_size(*old(img)),
        raster_pixels(*final(img)) == raster_pixels(*old(img)).insert((x, y), c),
{
    img.img.put_pixel(x, y, image::Rgb([c.0, c.1, c.2]))
}

/// The byte of the red channel of the pixel at `(x, y)` in a raster laid out
/// row by row, three bytes per pixel (green and blue follow it).
pub open spec fn sample_index(width: u32, x: u32, y: u32) -> int {
    3 * ((y as int) * (width as int) + (x as int))
}

/// `bytes` is the raster `m` of size `width` x `height`, laid out row by row,
/// three bytes (red, green, blue) per pixel.
pub open spec fn laid_out(bytes: Seq<u8>, m: Map<(u32, u32), Rgb8>, width: u32, height: u32) -> bool {
    &&& bytes.len() == 3 * width * height
    &&& forall|x: u32, y: u32|
        x < width && y < height ==> {
            let p = #[trigger] m[(x, y)];
            let i = sample_index(width, x, y);
            bytes[i] == p.0 && bytes[i + 1] == p.1 && bytes[i + 2] == p.2
        }
}

/// Relies on `image::ImageBuffer::into_raw`: the samples, row by row, three
/// bytes per pixel.
#[verifier::external_body]
fn raster_bytes(img: Raster) -> (r: Vec<u8>)
    ensures
        laid_out(r@, raster_pixels(img), raster_size(img).0, raster_size(img).1),
{
    img.img.into_raw()
}

/// Writes finished pixels into a new black `width` x `height` raster, each at
/// its own coordinates, in the order given, and returns the raster's bytes.
pub fn render_image(width: u32, height: u32, pixels: &Vec<PixelOut>) -> (r: Result<
    Vec<u8>,
    RasterError,
>)
    ensures
        !raster_fits(width, height) ==> r == Err::<Vec<u8>, RasterError>(
            RasterError::TooLarge,
        ),
        raster_fits(width, height) && !all_in_bounds(pixels@, width, height) ==> r == Err::<
            Vec<u8>,
            RasterError,
        >(RasterError::OutOfBounds),
        raster_fits(width, height) && all_in_bounds(pixels@, width, height) ==> r is Ok,
        r matches Ok(bytes) ==> laid_out(bytes@, placed(blank(width, height), pixels@), width, height),
{
    proof {
        assert(3 * (width as int) * (height as int) <= 3 * 0xffff_ffffint * 0xffff_ffffint)
            by (nonlinear_arith)
            requires
                width <= 0xffff_ffffint,
                height <= 0xffff_ffffint,
        ;
    }
    let row_bytes: u128 = 3 * (width as u128);
    let bytes: u128 = row_bytes * (height as u128);
    if row_bytes > usize::MAX as u128 || bytes > usize::MAX as u128 {
        return Err(RasterError::TooLarge);
    }
    assert(raster_fits(width, height));
    let mut i: usize = 0;
    while i < pixels.len()
        invariant
            raster_fits(width, height),
            i <= pixels@.len(),
            forall|j: int| 0 <= j < i ==> (#[trigger] pixels@[j]).0 < width && pixels@[j].1 < height,
        decreases pixels@.len() - i,
    {
        let (x, y, _) = pixels[i];
        if x >= width || y >= height {
            return Err(RasterError::OutOfBounds);
        }
        i = i + 1;
    }
    let mut img = new_raster(width, height);
    let mut k: usize = 0;
    while k < pixels.len()
        invariant
            k <= pixels@.len(),
            all_in_bounds(pixels@, width, height),
            raster_size(img) == (width, height),
            raster_pixels(img) == placed(blank(width, height), pixels@.subrange(0, k as int)),
        decreases pixels@.len() - k,
    {
        let (x, y, c) = pixels[k];
        proof {
            assert(pixels@[k as int].0 < width);
        }
        put_raster_pixel(&mut img, x, y, c);
        proof {
            let next = pixels@.subrange(0, k + 1);
            assert(next.drop_last() =~= pixels@.subrange(0, k as int));
            assert(next.last() == pixels@[k as int]);
        }
        k = k + 1;
    }
    proof {
        assert(pixels@.subrange(0, pixels@.len() as int) =~= pixels@);
    }
    Ok(raster_bytes(img))
}

/// Some pixel of `s` lies at `k`, and each that does has colour `c`: after
/// placing `s`, `k` holds `c`.
proof fn lemma_placed_covered(base: Map<(u32, u32), Rgb8>, s: Seq<PixelOut>, k: (u32, u32), c: Rgb8)
    requires
        exists|i: int| 0 <= i < s.len() && ((#[trigger] s[i]).0, s[i].1) == k,
        forall|i: int| 0 <= i < s.len() && ((#[trigger] s[i]).0, s[i].1) == k ==> s[i].2 == c,
    ensures
        placed(base, s).contains_key(k),
        placed(base, s)[k] == c,
    decreases s.len(),
{
    let last = s.last();
    if (last.0, last.1) != k {
        let i = choose|i: int| 0 <= i < s.len() && ((#[trigger] s[i]).0, s[i].1) == k;
        let rest = s.drop_last();
        assert(i < s.len() - 1);
        assert(rest[i] == s[i]);
        assert forall|j: int| 0 <= j < rest.len() && ((#[trigger] rest[j]).0, rest[j].1) == k implies rest[j].2
            == c by {
            assert(rest[j] == s[j]);
        }
        lemma_placed_covered(base, rest, k, c);
    }
}

/// No pixel of `s` lies at `k`: placing `s` leaves `k` as it was.
proof fn lemma_placed_untouched(base: Map<(u32, u32), Rgb8>, s: Seq<PixelOut>, k: (u32, u32))
    requires
        forall|i: int| 0 <= i < s.len() ==> ((#[trigger] s[i]).0, s[i].1) != k,
    ensures
        placed(base, s).contains_key(k) == base.contains_key(k),
        base.contains_key(k) ==> placed(base, s)[k] == base[k],
    decreases s.len(),
{
    if s.len() > 0 {
        let rest = s.drop_last();
        assert(s.last() == s[s.len() - 1]);
        assert forall|j: int| 0 <= j < rest.len() implies ((#[trigger] rest[j]).0, rest[j].1) != k by {
            assert(rest[j] == s[j]);
        }
        lemma_placed_untouched(base, rest, k);
    }
}

/// Two orders of the same pixels, with distinct coordinates, agree at `k`.
proof fn lemma_placed_same_at(
    base: Map<(u32, u32), Rgb8>,
    a: Seq<PixelOut>,
    b: Seq<PixelOut>,
    k: (u32, u32),
)
    requires
        distinct_coords(a),
        a.to_multiset() == b.to_multiset(),
    ensures
        placed(base, a).contains_key(k) == placed(base, b).contains_key(k),
        placed(base, a).contains_key(k) ==> placed(base, a)[k] == placed(base, b)[k],
{
    a.to_multiset_ensures();
    b.to_multiset_ensures();
    // every pixel of `b` is one of `a`
    assert forall|j: int| 0 <= j < b.len() implies a.contains(#[trigger] b[j]) by {
        assert(b.contains(b[j]));
        assert(b.to_multiset().count(b[j]) > 0);
        assert(a.to_multiset().count(b[j]) > 0);
    }
    if exists|i: int| 0 <= i < a.len() && ((#[trigger] a[i]).0, a[i].1) == k {
        let i = choose|i: int| 0 <= i < a.len() && ((#[trigger] a[i]).0, a[i].1) == k;
        let e = a[i];
        assert forall|p: int| 0 <= p < a.len() && ((#[trigger] a[p]).0, a[p].1) == k implies a[p].2
            == e.2 by {
            if p != i {
                assert(((a[p]).0, a[p].1) != ((a[i]).0, a[i].1));
            }
        }
        assert(a.contains(e));
        assert(a.to_multiset().count(e) > 0);
        assert(b.to_multiset().count(e) > 0);
        assert(b.contains(e));
        let w = choose|j: int| 0 <= j < b.len() && b[j] == e;
        assert(((b[w]).0, b[w].1) == k);
        assert forall|j: int| 0 <= j < b.len() && ((#[trigger] b[j]).0, b[j].1) == k implies b[j].2
            == e.2 by {
            assert(a.contains(b[j]));
            let p = choose|p: int| 0 <= p < a.len() && a[p] == b[j];
            assert(((a[p]).0, a[p].1) == k);
        }
        lemma_placed_covered(base, a, k, e.2);
        lemma_placed_covered(base, b, k, e.2);
    } else {
        assert forall|j: int| 0 <= j < b.len() implies ((#[trigger] b[j]).0, b[j].1) != k by {
            assert(a.contains(b[j]));
            let p = choose|p: int| 0 <= p < a.len() && a[p] == b[j];
            assert(((a[p]).0, a[p].1) != k);
        }
        lemma_placed_untouched(base, a, k);
        lemma_placed_untouched(base, b, k);
    }
}

/// Reassembly by coordinates does not depend on the order in which finished
/// pixels arrive: placing any rearrangement of the same pixels, no two of
/// which share coordinates, gives the same raster.
pub proof fn lemma_placement_order_independent(
    base: Map<(u32, u32), Rgb8>,
    a: Seq<PixelOut>,
    b: Seq<PixelOut>,
)
    requires
        distinct_coords(a),
        a.to_multiset() == b.to_multiset(),
    ensures
        placed(base, a) == placed(base, b),
{
    assert forall|k: (u32, u32)| #[trigger] placed(base, a).contains_key(k) == placed(
        base,
        b,
    ).contains_key(k) by {
        lemma_placed_same_at(base, a, b, k);
    }
    assert forall|k: (u32, u32)| #[trigger] placed(base, a).contains_key(k) implies placed(base, a)[k]
        == placed(base, b)[k] by {
        lemma_placed_same_at(base, a, b, k);
    }
    assert(placed(base, a) =~= placed(base, b));
}

} // verus!
