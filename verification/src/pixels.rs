//! Converting shell bitmaps to straight-alpha RGBA.

use vstd::prelude::*;

verus! {

/// A decoded icon: tightly packed, top-down, straight-alpha RGBA8888.
#[derive(Debug)]
pub struct IconImage {
    pub width: u32,
    pub height: u32,
    pub rgba: Vec<u8>,
}

impl Clone for IconImage {
    fn clone(&self) -> (r: IconImage)
        ensures
            r.width == self.width,
            r.height == self.height,
            r.rgba@ == self.rgba@,
    {
        let mut rgba: Vec<u8> = Vec::new();
        for i in 0..self.rgba.len()
            invariant
                rgba@ == self.rgba@.take(i as int),
        {
            rgba.push(self.rgba[i]);
        }
        assert(self.rgba@.take(self.rgba@.len() as int) =~= self.rgba@);
        IconImage { width: self.width, height: self.height, rgba }
    }
}

/// How many whole pixels a buffer holds.
pub open spec fn pixel_count(b: Seq<u8>) -> int {
    b.len() as int / 4
}

/// Whether no pixel has any alpha.
pub open spec fn lacks_alpha(b: Seq<u8>) -> bool {
    forall|i: int| 0 <= i < pixel_count(b) ==> #[trigger] b[4 * i + 3] == 0
}

/// The straight value of a colour channel that was premultiplied by alpha `a`.
pub open spec fn straight(c: u8, a: u8) -> u8 {
    if 0 < a < 255 {
        let v = (c * 255 + a / 2) / a as int;
        if v > 255 {
            255
        } else {
            v as u8
        }
    } else {
        c
    }
}

/// Whether pixel `i` of `out` has the given blue, green, red and alpha, in RGBA order.
pub open spec fn pixel_is(out: Seq<u8>, i: int, b: u8, g: u8, r: u8, a: u8) -> bool {
    out[4 * i] == r && out[4 * i + 1] == g && out[4 * i + 2] == b && out[4 * i + 3] == a
}

/// What a thumbnail's BGRA bytes become: without any alpha the image is opaque,
/// otherwise partly transparent pixels are un-premultiplied.
pub open spec fn thumbnail_bytes(b: Seq<u8>, out: Seq<u8>) -> bool {
    &&& out.len() == b.len()
    &&& forall|i: int|
        #![trigger out[4 * i]]
        #![trigger b[4 * i]]
        0 <= i < pixel_count(b) ==> {
            let a = b[4 * i + 3];
            if lacks_alpha(b) {
                pixel_is(out, i, b[4 * i], b[4 * i + 1], b[4 * i + 2], 255)
            } else {
                pixel_is(
                    out,
                    i,
                    straight(b[4 * i], a),
                    straight(b[4 * i + 1], a),
                    straight(b[4 * i + 2], a),
                    a,
                )
            }
        }
}

/// The alpha of pixel `i` of an icon: its own, or, where the icon has none at all,
/// opaque where the mask is black, and opaque throughout without a mask.
pub open spec fn icon_alpha(b: Seq<u8>, mask: Option<Seq<u8>>, i: int) -> u8 {
    if !lacks_alpha(b) {
        b[4 * i + 3]
    } else {
        match mask {
            Some(m) => if i < pixel_count(m) {
                if m[4 * i] == 0 {
                    255
                } else {
                    0
                }
            } else {
                b[4 * i + 3]
            },
            None => 255,
        }
    }
}

/// What an icon's BGRA bytes become.
pub open spec fn icon_bytes(b: Seq<u8>, mask: Option<Seq<u8>>, out: Seq<u8>) -> bool {
    &&& out.len() == b.len()
    &&& forall|i: int|
        #![trigger out[4 * i]]
        #![trigger b[4 * i]]
        0 <= i < pixel_count(b) ==> pixel_is(
            out,
            i,
            b[4 * i],
            b[4 * i + 1],
            b[4 * i + 2],
            icon_alpha(b, mask, i),
        )
}

/// Whether no pixel has any alpha.
pub fn no_alpha(b: &Vec<u8>) -> (r: bool)
    ensures
        r == lacks_alpha(b@),
{
    let n: usize = b.len() / 4;
    for i in 0..n
        invariant
            n == pixel_count(b@),
            n * 4 <= b.len(),
            forall|k: int| 0 <= k < i ==> #[trigger] b@[4 * k + 3] == 0,
    {
        if b[4 * i + 3] != 0 {
            assert(b@[4 * (i as int) + 3] != 0);
            return false;
        }
    }
    true
}

/// Un-premultiply one channel.
pub fn straighten(c: u8, a: u8) -> (r: u8)
    ensures
        r == straight(c, a),
{
    if a > 0 && a < 255 {
        let v: u32 = (c as u32 * 255 + a as u32 / 2) / a as u32;
        if v > 255 {
            255
        } else {
            v as u8
        }
    } else {
        c
    }
}

/// A bitmap's size, when it has one.
pub open spec fn extent(width: i32, height: i32) -> Option<(u32, u32)> {
    if width > 0 && height > 0 {
        Some((width as u32, height as u32))
    } else {
        None
    }
}

/// Convert a thumbnail's top-down 32-bit BGRA bytes. `None` for an empty bitmap and
/// for one whose bytes could not be read.
pub fn hbitmap_to_rgba(width: i32, height: i32, bgra: Option<Vec<u8>>) -> (r: Option<IconImage>)
    ensures
        match (bgra, r) {
            (Some(b), Some(image)) => {
                &&& extent(width, height) == Some((image.width, image.height))
                &&& thumbnail_bytes(b@, image.rgba@)
            },
            (Some(_), None) => extent(width, height) is None,
            (None, out) => out is None,
        },
{
    if width <= 0 || height <= 0 {
        return None;
    }
    match bgra {
        None => None,
        Some(b) => {
            let missing: bool = no_alpha(&b);
            let n: usize = b.len() / 4;
            let mut out: Vec<u8> = Vec::new();
            for i in 0..n
                invariant
                    n == pixel_count(b@),
                    n * 4 <= b.len(),
                    missing == lacks_alpha(b@),
                    out@.len() == 4 * i,
                    forall|k: int|
                        #![trigger out@[4 * k]]
                        #![trigger b@[4 * k]]
                        0 <= k < i ==> {
                            let a = b@[4 * k + 3];
                            if lacks_alpha(b@) {
                                pixel_is(out@, k, b@[4 * k], b@[4 * k + 1], b@[4 * k + 2], 255)
                            } else {
                                pixel_is(
                                    out@,
                                    k,
                                    straight(b@[4 * k], a),
                                    straight(b@[4 * k + 1], a),
                                    straight(b@[4 * k + 2], a),
                                    a,
                                )
                            }
                        },
            {
                let a: u8 = b[4 * i + 3];
                if missing {
                    out.push(b[4 * i + 2]);
                    out.push(b[4 * i + 1]);
                    out.push(b[4 * i]);
                    out.push(255);
                } else {
                    out.push(straighten(b[4 * i + 2], a));
                    out.push(straighten(b[4 * i + 1], a));
                    out.push(straighten(b[4 * i], a));
                    out.push(a);
                }
            }
            let mut i: usize = 4 * n;
            while i < b.len()
                invariant
                    4 * n <= i <= b@.len(),
                    n == pixel_count(b@),
                    out@.len() == i,
                    forall|k: int|
                        #![trigger out@[4 * k]]
                        #![trigger b@[4 * k]]
                        0 <= k < n ==> {
                            let a = b@[4 * k + 3];
                            if lacks_alpha(b@) {
                                pixel_is(out@, k, b@[4 * k], b@[4 * k + 1], b@[4 * k + 2], 255)
                            } else {
                                pixel_is(
                                    out@,
                                    k,
                                    straight(b@[4 * k], a),
                                    straight(b@[4 * k + 1], a),
                                    straight(b@[4 * k + 2], a),
                                    a,
                                )
                            }
                        },
                decreases b@.len() - i,
            {
                out.push(b[i]);
                i += 1;
            }
            Some(IconImage { width: width as u32, height: height as u32, rgba: out })
        },
    }
}

/// Fill the alpha channel from an icon's AND mask (black is opaque); without a mask
/// everything becomes opaque.
pub fn apply_mask_alpha(bgra: &mut Vec<u8>, mask: &Option<Vec<u8>>)
    ensures
        final(bgra)@.len() == old(bgra)@.len(),
        forall|k: int|
            0 <= k < old(bgra)@.len() && (k % 4 != 3 || k / 4 >= pixel_count(old(bgra)@))
                ==> #[trigger] final(bgra)@[k] == old(bgra)@[k],
        forall|i: int|
            0 <= i < pixel_count(old(bgra)@) ==> #[trigger] final(bgra)@[4 * i + 3] == (match mask {
                Some(m) => if i < pixel_count(m@) {
                    if m@[4 * i] == 0 {
                        255
                    } else {
                        0
                    }
                } else {
                    old(bgra)@[4 * i + 3]
                },
                None => 255,
            }),
{
    let n: usize = bgra.len() / 4;
    for i in 0..n
        invariant
            n == pixel_count(old(bgra)@),
            n * 4 <= bgra.len(),
            bgra@.len() == old(bgra)@.len(),
            forall|k: int|
                0 <= k < old(bgra)@.len() && (k % 4 != 3 || k / 4 >= i) ==> #[trigger] bgra@[k]
                    == old(bgra)@[k],
            forall|j: int|
                0 <= j < i ==> #[trigger] bgra@[4 * j + 3] == (match mask {
                    Some(m) => if j < pixel_count(m@) {
                        if m@[4 * j] == 0 {
                            255
                        } else {
                            0
                        }
                    } else {
                        old(bgra)@[4 * j + 3]
                    },
                    None => 255,
                }),
    {
        let ghost prev = bgra@;
        match mask {
            Some(m) => {
                if i < m.len() / 4 {
                    let a: u8 = if m[4 * i] == 0 {
                        255
                    } else {
                        0
                    };
                    bgra.set(4 * i + 3, a);
                }
            },
            None => {
                bgra.set(4 * i + 3, 255);
            },
        }
        assert(prev[4 * (i as int) + 3] == old(bgra)@[4 * (i as int) + 3]);
    }
}

/// Convert an icon's top-down 32-bit BGRA bytes. Icons without an alpha channel take
/// their transparency from the AND mask. `None` for an empty bitmap and for one whose
/// bytes could not be read.
pub fn convert_color_bitmap(
    width: i32,
    height: i32,
    bgra: Option<Vec<u8>>,
    mask: &Option<Vec<u8>>,
) -> (r: Option<IconImage>)
    ensures
        match (bgra, r) {
            (Some(b), Some(image)) => {
                &&& extent(width, height) == Some((image.width, image.height))
                &&& icon_bytes(
                    b@,
                    match mask {
                        Some(m) => Some(m@),
                        None => None,
                    },
                    image.rgba@,
                )
            },
            (Some(_), None) => extent(width, height) is None,
            (None, out) => out is None,
        },
{
    if width <= 0 || height <= 0 {
        return None;
    }
    match bgra {
        None => None,
        Some(b) => {
            let ghost source = b@;
            let ghost m = match mask {
                Some(m) => Some(m@),
                None => None,
            };
            let mut pixels = b;
            if no_alpha(&pixels) {
                apply_mask_alpha(&mut pixels, mask);
            }
            assert forall|i: int| 0 <= i < pixel_count(source) implies pixels@[4 * i] == source[4
                * i] && pixels@[4 * i + 1] == source[4 * i + 1] && pixels@[4 * i + 2] == source[4
                * i + 2] && #[trigger] pixels@[4 * i + 3] == icon_alpha(source, m, i) by {
                assert((4 * i) % 4 != 3 && (4 * i + 1) % 4 != 3 && (4 * i + 2) % 4 != 3);
            }
            let ghost filled = pixels@;
            let n: usize = pixels.len() / 4;
            for i in 0..n
                invariant
                    n == pixel_count(filled),
                    n * 4 <= pixels.len(),
                    pixels@.len() == filled.len(),
                    forall|k: int| 4 * i <= k < filled.len() ==> #[trigger] pixels@[k] == filled[k],
                    forall|k: int|
                        #![trigger pixels@[4 * k]]
                        #![trigger filled[4 * k]]
                        0 <= k < i ==> pixel_is(
                            pixels@,
                            k,
                            filled[4 * k],
                            filled[4 * k + 1],
                            filled[4 * k + 2],
                            filled[4 * k + 3],
                        ),
            {
                let blue: u8 = pixels[4 * i];
                let red: u8 = pixels[4 * i + 2];
                pixels.set(4 * i, red);
                pixels.set(4 * i + 2, blue);
            }
            assert forall|i: int|
                #![trigger pixels@[4 * i]]
                #![trigger source[4 * i]]
                0 <= i < pixel_count(source) implies pixel_is(
                pixels@,
                i,
                source[4 * i],
                source[4 * i + 1],
                source[4 * i + 2],
                icon_alpha(source, m, i),
            ) by {
                assert(filled[4 * i + 3] == icon_alpha(source, m, i));
                assert(pixel_is(
                    pixels@,
                    i,
                    filled[4 * i],
                    filled[4 * i + 1],
                    filled[4 * i + 2],
                    filled[4 * i + 3],
                ));
            }
            Some(IconImage { width: width as u32, height: height as u32, rgba: pixels })
        },
    }
}

/// Un-premultiplying never darkens a channel.
pub proof fn law_straight_never_darkens(c: u8, a: u8)
    ensures
        straight(c, a) >= c,
{
    if 0 < a < 255 {
        let x = c * 255 + a / 2;
        let y = a as int;
        assert(x >= c * y) by (nonlinear_arith)
            requires
                x == c * 255 + a / 2,
                y == a as int,
                0 < a < 255,
                c >= 0,
        ;
        assert(x / y >= c) by (nonlinear_arith)
            requires
                x >= c * y,
                y > 0,
        ;
    }
}

/// A thumbnail that came without alpha is shown fully opaque.
pub proof fn law_thumbnail_without_alpha_is_opaque(b: Seq<u8>, out: Seq<u8>, i: int)
    requires
        thumbnail_bytes(b, out),
        lacks_alpha(b),
        0 <= i < pixel_count(b),
    ensures
        out[4 * i + 3] == 255,
{
    assert(pixel_is(out, i, b[4 * i], b[4 * i + 1], b[4 * i + 2], 255));
}

/// A colour that was multiplied by its alpha is divided by it again, to the nearest value; an
/// opaque or fully transparent pixel keeps its colour.
pub proof fn law_colour_is_divided_by_its_alpha(c: u8, a: u8)
    requires
        c <= a,
    ensures
        a == 255 || a == 0 ==> straight(c, a) == c,
        0 < a < 255 ==> {
            &&& 2 * (straight(c, a) * a) <= 2 * (c * 255) + a
            &&& 2 * (c * 255) <= 2 * (straight(c, a) * a) + a
        },
{
    if 0 < a < 255 {
        let x = c * 255 + a / 2;
        let v = x / a as int;
        assert(v * a <= x && x < (v + 1) * a) by (nonlinear_arith)
            requires
                v == x / (a as int),
                a > 0,
                x >= 0,
        ;
        assert(v <= 255) by (nonlinear_arith)
            requires
                v * a <= x,
                x == c * 255 + a / 2,
                c <= a,
                a > 0,
        ;
        assert(v >= 0) by (nonlinear_arith)
            requires
                v == x / (a as int),
                a > 0,
                x >= 0,
        ;
        assert((v + 1) * a == v * a + a) by (nonlinear_arith);
    }
}

/// Blue, green and red change places, so that red comes first; green and alpha stay. A
/// thumbnail without any alpha is opaque, and an opaque pixel keeps its colours.
pub proof fn law_thumbnail_channels_change_places(b: Seq<u8>, out: Seq<u8>, i: int)
    requires
        thumbnail_bytes(b, out),
        0 <= i < b.len() as int / 4,
        lacks_alpha(b) || b[4 * i + 3] == 255,
    ensures
        out.len() == b.len(),
        out[4 * i] == b[4 * i + 2],
        out[4 * i + 1] == b[4 * i + 1],
        out[4 * i + 2] == b[4 * i],
        out[4 * i + 3] == 255,
{
    let x = b[4 * i];
}

/// An icon's channels change places in the same way. Its alpha is its own; an icon without any
/// is opaque where its mask is black and transparent where it is not, and without a mask opaque
/// throughout.
pub proof fn law_icon_channels_change_places(
    b: Seq<u8>,
    mask: Option<Seq<u8>>,
    out: Seq<u8>,
    i: int,
)
    requires
        icon_bytes(b, mask, out),
        0 <= i < b.len() as int / 4,
    ensures
        out.len() == b.len(),
        out[4 * i] == b[4 * i + 2],
        out[4 * i + 1] == b[4 * i + 1],
        out[4 * i + 2] == b[4 * i],
        (exists|k: int| 0 <= k < b.len() as int / 4 && #[trigger] b[4 * k + 3] != 0) ==> out[4 * i
            + 3] == b[4 * i + 3],
        (forall|k: int| 0 <= k < b.len() as int / 4 ==> #[trigger] b[4 * k + 3] == 0) ==> {
            &&& mask is None ==> out[4 * i + 3] == 255
            &&& mask matches Some(m) ==> (i < m.len() as int / 4 ==> out[4 * i + 3] == (if m[4 * i]
                == 0 {
                255u8
            } else {
                0u8
            }))
        },
{
    let x = b[4 * i];
}

} // verus!
