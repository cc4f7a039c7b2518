//! Images: pixels on their way to the screen or into a stream.

use crate::gamepad::{Backend, Gamepad};
use tiny_skia::Pixmap;
use vstd::prelude::*;

verus! {

/// An image of tiny-skia.
#[verifier::external_type_specification]
#[verifier::external_body]
pub struct ExPixmap(tiny_skia::Pixmap);

/// The bytes of an image: red, green, blue and alpha of one pixel after the other, row by row, the
/// colors multiplied by alpha. An image can have more bytes than its pixels take.
pub uninterp spec fn pixmap_data(img: Pixmap) -> Seq<u8>;

/// The width of an image.
pub uninterp spec fn pixmap_width(img: Pixmap) -> u32;

/// The height of an image.
pub uninterp spec fn pixmap_height(img: Pixmap) -> u32;

/// The width and height of an image.
pub open spec fn pixmap_size(img: Pixmap) -> (u32, u32) {
    (pixmap_width(img), pixmap_height(img))
}

/// How many bytes the pixels of an image of `size` take.
pub open spec fn byte_count(size: (u32, u32)) -> nat {
    4 * (size.0 as nat * size.1 as nat)
}

/// Whether an image has as many bytes as its pixels take.
pub open spec fn exact(img: Pixmap) -> bool {
    pixmap_data(img).len() == byte_count(pixmap_size(img))
}

/// The bytes of a transparent image of `size`.
pub open spec fn transparent(size: (u32, u32)) -> Seq<u8> {
    Seq::new(byte_count(size), |i: int| 0u8)
}

/// The pixel at `i`: red, green, blue and alpha.
pub open spec fn pixel_of(data: Seq<u8>, i: int) -> (u8, u8, u8, u8) {
    (data[4 * i], data[4 * i + 1], data[4 * i + 2], data[4 * i + 3])
}

/// `data` with `p` for its pixel at `i`.
pub open spec fn painted(data: Seq<u8>, i: int, p: (u8, u8, u8, u8)) -> Seq<u8> {
    data.update(4 * i, p.0).update(4 * i + 1, p.1).update(4 * i + 2, p.2).update(4 * i + 3, p.3)
}

/// What `Pixmap::encode_png` makes of an image's size and bytes, if it succeeds.
pub uninterp spec fn png_encoding(size: (u32, u32), data: Seq<u8>) -> Option<Seq<u8>>;

/// The largest width of an image.
pub const MAX_WIDTH: u32 = 536_870_911;

/// `Pixmap::new` of tiny-skia: a fully transparent image of the given size. There is none
/// without any pixels, nor one whose rows take more than 31 bits of bytes.
#[verifier::external_body]
fn create(width: u32, height: u32) -> (r: Option<Pixmap>)
    requires
        4 * (width as int * height as int) <= isize::MAX,
    ensures
        r is Some == (width > 0 && height > 0 && width <= MAX_WIDTH),
        r matches Some(img) ==> {
            &&& pixmap_size(img) == (width, height)
            &&& pixmap_data(img) == transparent((width, height))
        },
{
    Pixmap::new(width, height)
}

/// `Pixmap::width` of tiny-skia: the width of the image.
pub assume_specification[ Pixmap::width ](img: &Pixmap) -> (r: u32)
    ensures
        r == pixmap_width(*img),
;

/// `Pixmap::height` of tiny-skia: the height of the image.
pub assume_specification[ Pixmap::height ](img: &Pixmap) -> (r: u32)
    ensures
        r == pixmap_height(*img),
;

/// `Pixmap::data` of tiny-skia: the bytes of the image.
pub assume_specification[ Pixmap::data ](img: &Pixmap) -> (r: &[u8])
    ensures
        r@ == pixmap_data(*img),
;

/// `Pixmap::data_mut` of tiny-skia: sets the byte at `index` and no other.
#[verifier::external_body]
fn set_byte(img: &mut Pixmap, index: usize, value: u8)
    requires
        index < pixmap_data(*old(img)).len(),
    ensures
        pixmap_data(*final(img)) == pixmap_data(*old(img)).update(index as int, value),
        pixmap_size(*final(img)) == pixmap_size(*old(img)),
{
    img.data_mut()[index] = value;
}

/// `Pixmap::encode_png` of tiny-skia: the image as a PNG file, if it can be encoded. It reads the
/// bytes four at a time.
#[verifier::external_body]
fn encode_png(img: &Pixmap) -> (r: Option<Vec<u8>>)
    requires
        exact(*img),
    ensures
        match r {
            Some(png) => png_encoding(pixmap_size(*img), pixmap_data(*img)) == Some(png@),
            None => png_encoding(pixmap_size(*img), pixmap_data(*img)) is None,
        },
{
    img.encode_png().ok()
}

/// The size of the image.
pub fn size(img: &Pixmap) -> (r: (u32, u32))
    ensures
        r == pixmap_size(*img),
{
    (img.width(), img.height())
}

/// Whether the image has as many bytes as its pixels take.
fn is_exact(img: &Pixmap) -> (r: bool)
    ensures
        r == exact(*img),
{
    let (w, h) = size(img);
    proof {
        lemma_area(w, h);
    }
    img.data().len() as u128 == 4 * (w as u128 * h as u128)
}

proof fn lemma_area(w: u32, h: u32)
    ensures
        0 <= w as nat * h as nat <= 0xffff_ffff * 0xffff_ffff,
{
    assert(0 <= w as nat * h as nat <= 0xffff_ffff * 0xffff_ffff) by (nonlinear_arith)
        requires
            w <= 0xffff_ffff,
            h <= 0xffff_ffff,
    ;
}

/// The image as a PNG file. There is none of an image with bytes that belong to no pixel.
pub open spec fn png_of(img: Pixmap) -> Option<Seq<u8>> {
    if exact(img) {
        png_encoding(pixmap_size(img), pixmap_data(img))
    } else {
        None
    }
}

/// The image as a PNG file, if it can be encoded.
pub fn to_png(img: &Pixmap) -> (r: Option<Vec<u8>>)
    ensures
        match r {
            Some(png) => png_of(*img) == Some(png@),
            None => png_of(*img) is None,
        },
{
    if is_exact(img) {
        encode_png(img)
    } else {
        None
    }
}

/// Whether there can be an image of this size.
pub open spec fn possible(width: u32, height: u32) -> bool {
    &&& 0 < width <= MAX_WIDTH
    &&& 0 < height
    &&& 4 * (width as int * height as int) <= isize::MAX
}

/// A transparent image of the given size, if there can be one.
pub fn blank(width: u32, height: u32) -> (r: Option<Pixmap>)
    ensures
        r is Some == possible(width, height),
        r matches Some(img) ==> {
            &&& pixmap_size(img) == (width, height)
            &&& pixmap_data(img) == transparent((width, height))
        },
{
    proof {
        lemma_area(width, height);
    }
    let bytes: u128 = 4 * (width as u128 * height as u128);
    if bytes > isize::MAX as u128 {
        return None;
    }
    create(width, height)
}

/// A transparent image of the size of the overlay; `None` if there is no image of that size.
pub fn new_pixmap<B: Backend>(gamepad: &Gamepad<B>) -> (r: Option<Pixmap>)
    ensures
        match gamepad.size() {
            Some(size) => {
                &&& r is Some == possible(size.0, size.1)
                &&& r matches Some(img) ==> {
                    &&& pixmap_size(img) == size
                    &&& pixmap_data(img) == transparent(size)
                }
            },
            None => r is None,
        },
{
    match gamepad.image_size() {
        Some((width, height)) => blank(width, height),
        None => None,
    }
}

/// A pixel the way a window takes it: red, green and blue in the low 24 bits.
pub open spec fn packed(p: (u8, u8, u8, u8)) -> u32 {
    (p.0 as nat * 0x1_0000 + p.1 as nat * 0x100 + p.2 as nat) as u32
}

/// Writes the pixels of the image to the start of `buf`, as far as both go. Four bytes make a
/// pixel.
pub fn update_screen(img: &Pixmap, buf: &mut Vec<u32>)
    ensures
        final(buf)@.len() == old(buf)@.len(),
        forall|i: int|
            0 <= i < final(buf)@.len() ==> #[trigger] final(buf)@[i] == if i < pixmap_data(
                *img,
            ).len() / 4 {
                packed(pixel_of(pixmap_data(*img), i))
            } else {
                old(buf)@[i]
            },
{
    let data = img.data();
    let bytes: usize = data.len();
    let total: usize = bytes / 4;
    let mut i: usize = 0;
    while i < buf.len() && i < total
        invariant
            data@ == pixmap_data(*img),
            bytes == data@.len(),
            total == bytes / 4,
            i <= buf@.len(),
            i <= total,
            buf@.len() == old(buf)@.len(),
            forall|k: int|
                0 <= k < i ==> #[trigger] buf@[k] == packed(pixel_of(pixmap_data(*img), k)),
            forall|k: int| i <= k < buf@.len() ==> buf@[k] == old(buf)@[k],
        decreases buf@.len() - i,
    {
        let r: u32 = data[4 * i] as u32;
        let g: u32 = data[4 * i + 1] as u32;
        let b: u32 = data[4 * i + 2] as u32;
        buf.set(i, r * 0x1_0000 + g * 0x100 + b);
        i += 1;
    }
}

/// The lesser of two bytes.
pub open spec fn at_most(c: u8, a: u8) -> u8 {
    if c < a {
        c
    } else {
        a
    }
}

fn limit(c: u8, a: u8) -> (r: u8)
    ensures
        r == at_most(c, a),
{
    if c < a {
        c
    } else {
        a
    }
}

/// The place of the pixel at (`x`, `y`) in an image of `size` with `bytes` bytes, if the point is
/// in the image.
pub open spec fn place(size: (u32, u32), bytes: nat, x: int, y: int) -> Option<int> {
    let i = y * size.0 + x;
    if 0 <= x < size.0 <= i32::MAX && 0 <= y < size.1 <= i32::MAX && 4 * i + 4 <= bytes {
        Some(i)
    } else {
        None
    }
}

/// The pixel at (`x`, `y`) and its place, if the point is in the image.
pub fn pixel_at(img: &Pixmap, x: i32, y: i32) -> (r: Option<(usize, (u8, u8, u8, u8))>)
    ensures
        match place(pixmap_size(*img), pixmap_data(*img).len(), x as int, y as int) {
            Some(i) => {
                &&& r matches Some((index, p))
                &&& index == i
                &&& p == pixel_of(pixmap_data(*img), i)
            },
            None => r is None,
        },
{
    let (w, h) = size(img);
    if x < 0 || y < 0 || w > 0x7fff_ffff || h > 0x7fff_ffff || x as u32 >= w || y as u32 >= h {
        return None;
    }
    let data = img.data();
    proof {
        assert(0 <= y * w <= 0x7fff_ffff * 0x7fff_ffff) by (nonlinear_arith)
            requires
                0 <= w <= 0x7fff_ffff,
                0 <= y <= 0x7fff_ffff,
        ;
    }
    let i: u128 = y as u128 * w as u128 + x as u128;
    if 4 * i + 4 > data.len() as u128 {
        return None;
    }
    let index: usize = i as usize;
    let at: usize = 4 * index;
    Some((index, (data[at], data[at + 1], data[at + 2], data[at + 3])))
}

/// Sets the pixel at `index`, if there is one; a color above alpha counts as alpha.
pub fn put_pixel(img: &mut Pixmap, index: usize, r: u8, g: u8, b: u8, a: u8)
    ensures
        pixmap_data(*final(img)) == if 4 * index + 4 <= pixmap_data(*old(img)).len() {
            painted(
                pixmap_data(*old(img)),
                index as int,
                (at_most(r, a), at_most(g, a), at_most(b, a), a),
            )
        } else {
            pixmap_data(*old(img))
        },
        pixmap_size(*final(img)) == pixmap_size(*old(img)),
{
    if index < img.data().len() / 4 {
        let at: usize = 4 * index;
        set_byte(img, at, limit(r, a));
        set_byte(img, at + 1, limit(g, a));
        set_byte(img, at + 2, limit(b, a));
        set_byte(img, at + 3, a);
    }
}

// ---------------------------------------------------------------------------
// Where pixels are
// ---------------------------------------------------------------------------

/// The pixels of an image follow each other from left to right, and its rows from top to bottom. A
/// point outside the image has no pixel.
pub proof fn lemma_pixels_placed(size: (u32, u32), x: int, y: int)
    requires
        size.0 <= i32::MAX,
        size.1 <= i32::MAX,
    ensures
        place(size, byte_count(size), x, y) is Some <==> 0 <= x < size.0 && 0 <= y < size.1,
        size.0 > 0 && size.1 > 0 ==> place(size, byte_count(size), 0, 0) == Some(0int),
        0 <= x && x + 1 < size.0 && 0 <= y < size.1 ==> place(size, byte_count(size), x + 1, y)
            == Some(place(size, byte_count(size), x, y)->0 + 1),
        0 <= x < size.0 && 0 <= y && y + 1 < size.1 ==> place(size, byte_count(size), x, y + 1)
            == Some(place(size, byte_count(size), x, y)->0 + size.0),
{
    lemma_place_fits(size, x, y);
    lemma_place_fits(size, 0, 0);
    lemma_place_fits(size, x + 1, y);
    lemma_place_fits(size, x, y + 1);
    assert((y + 1) * size.0 == y * size.0 + size.0) by (nonlinear_arith);
    assert(0 * size.0 == 0) by (nonlinear_arith);
}

proof fn lemma_place_fits(size: (u32, u32), x: int, y: int)
    ensures
        0 <= x < size.0 && 0 <= y < size.1 ==> 4 * (y * size.0 + x) + 4 <= byte_count(size),
{
    let w = size.0 as int;
    let h = size.1 as int;
    if 0 <= x < w && 0 <= y < h {
        assert(y * w + x + 1 <= w * h) by (nonlinear_arith)
            requires
                0 <= x < w,
                0 <= y < h,
        ;
    }
}

/// Painting a pixel sets its four bytes, red, green, blue and alpha in turn, and no others.
pub proof fn lemma_painted(data: Seq<u8>, i: int, p: (u8, u8, u8, u8), k: int)
    requires
        0 <= i,
        4 * i + 4 <= data.len(),
        0 <= k < data.len(),
    ensures
        painted(data, i, p).len() == data.len(),
        painted(data, i, p)[k] == (if k == 4 * i {
            p.0
        } else if k == 4 * i + 1 {
            p.1
        } else if k == 4 * i + 2 {
            p.2
        } else if k == 4 * i + 3 {
            p.3
        } else {
            data[k]
        }),
        pixel_of(painted(data, i, p), i) == p,
{
}

/// A window takes red, green and blue of a pixel as bytes, from the high ones down, without alpha.
pub proof fn lemma_packed(p: (u8, u8, u8, u8))
    ensures
        packed(p) / 0x1_0000 == p.0,
        packed(p) / 0x100 % 0x100 == p.1,
        packed(p) % 0x100 == p.2,
{
}

/// An image is encoded by its size and its bytes, if these are exactly those of its pixels; with any
/// others it is not.
pub proof fn lemma_encoded(img: Pixmap)
    ensures
        pixmap_data(img).len() == 4 * (pixmap_width(img) * pixmap_height(img)) ==> png_of(img)
            == png_encoding((pixmap_width(img), pixmap_height(img)), pixmap_data(img)),
        pixmap_data(img).len() != 4 * (pixmap_width(img) * pixmap_height(img)) ==> png_of(img) is None,
{
}

} // verus!
