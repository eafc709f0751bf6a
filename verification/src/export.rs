//! Layer export composition: cropping an RGBA canvas buffer to the
//! bounding box of its visible (non-transparent) content, and scaling the
//! cropped pixels by the layer's opacity. A pixel's four channel bytes are
//! scaled, with rounding, only where its alpha byte is non-zero.

use vstd::prelude::*;

verus! {

/// Errors of single-layer export composition.
#[derive(Clone, Copy, PartialEq, Eq, Structural, Debug)]
pub enum ExportError {
    /// The buffer length does not equal `4 * width * height`.
    BufferSizeMismatch,
    /// Every pixel is fully transparent: no visible bounding box exists.
    FullyTransparent,
}

/// A cropped, opacity-scaled image: the crop's top-left offset within the
/// canvas, its dimensions, and its RGBA bytes.
#[derive(Debug)]
pub struct LayerImage {
    pub left: u32,
    pub top: u32,
    pub width: u32,
    pub height: u32,
    pub bytes: Vec<u8>,
}

/// Channel byte `c` of the pixel at `(x, y)` in a row-major RGBA buffer of
/// row width `w`.
pub open spec fn px(rgba: Seq<u8>, w: int, x: int, y: int, c: int) -> u8 {
    rgba[4 * (y * w + x) + c]
}

/// The pixel at `(x, y)` has a non-zero alpha byte.
pub open spec fn visible_px(rgba: Seq<u8>, w: int, x: int, y: int) -> bool {
    px(rgba, w, x, y, 3) != 0
}

/// Some pixel of the buffer is visible.
pub open spec fn any_visible(rgba: Seq<u8>, w: int, h: int) -> bool {
    exists|x: int, y: int| 0 <= x < w && 0 <= y < h && visible_px(rgba, w, x, y)
}

/// A channel byte scaled by `opacity / 255`, rounded to nearest.
pub open spec fn scaled(b: u8, opacity: u8) -> u8 {
    (((b as int) * (opacity as int) + 127) / 255) as u8
}

/// The buffer with every channel byte of every visible pixel scaled by
/// `opacity / 255`; fully transparent pixels are left untouched.
pub open spec fn premultiplied(bytes: Seq<u8>, opacity: u8) -> Seq<u8> {
    Seq::new(
        bytes.len(),
        |k: int|
            if bytes[4 * (k / 4) + 3] != 0 {
                scaled(bytes[k], opacity)
            } else {
                bytes[k]
            },
    )
}

/// Scaling by full opacity changes nothing: the buffer is returned as it
/// came, visible pixels included.
pub proof fn lemma_premultiply_opaque(bytes: Seq<u8>)
    ensures
        premultiplied(bytes, 255) == bytes,
{
    assert forall|k: int| 0 <= k < bytes.len() implies premultiplied(bytes, 255)[k]
        == bytes[k] by {
        let b = bytes[k] as int;
        assert((b * 255 + 127) / 255 == b) by (nonlinear_arith)
            requires
                0 <= b <= 255,
        ;
    }
    assert(premultiplied(bytes, 255) =~= bytes);
}

/// A fully transparent pixel is left untouched by premultiplication,
/// whatever the opacity: none of its four bytes is scaled.
pub proof fn lemma_premultiply_transparent(bytes: Seq<u8>, opacity: u8, p: int)
    requires
        0 <= p,
        4 * p + 3 < bytes.len(),
        bytes[4 * p + 3] == 0,
    ensures
        premultiplied(bytes, opacity)[4 * p] == bytes[4 * p],
        premultiplied(bytes, opacity)[4 * p + 1] == bytes[4 * p + 1],
        premultiplied(bytes, opacity)[4 * p + 2] == bytes[4 * p + 2],
        premultiplied(bytes, opacity)[4 * p + 3] == bytes[4 * p + 3],
{
    assert((4 * p) / 4 == p);
    assert((4 * p + 1) / 4 == p);
    assert((4 * p + 2) / 4 == p);
    assert((4 * p + 3) / 4 == p);
}

/// The box `[left, left+cw) x [top, top+ch)` holds every visible pixel of
/// the buffer, and each of its four edges is attained by one.
pub open spec fn crop_box_of(
    rgba: Seq<u8>,
    w: int,
    h: int,
    left: int,
    top: int,
    cw: int,
    ch: int,
) -> bool {
    &&& 0 <= left
    &&& 0 <= top
    &&& 1 <= cw
    &&& 1 <= ch
    &&& left + cw <= w
    &&& top + ch <= h
    &&& forall|x: int, y: int|
        0 <= x < w && 0 <= y < h && visible_px(rgba, w, x, y) ==> left <= x < left + cw && top <= y
            < top + ch
    &&& exists|y: int| top <= y < top + ch && #[trigger] visible_px(rgba, w, left, y)
    &&& exists|y: int| top <= y < top + ch && #[trigger] visible_px(rgba, w, left + cw - 1, y)
    &&& exists|x: int| left <= x < left + cw && #[trigger] visible_px(rgba, w, x, top)
    &&& exists|x: int| left <= x < left + cw && #[trigger] visible_px(rgba, w, x, top + ch - 1)
}

/// The bytes of the `cw x ch` subrectangle at `(left, top)` of a buffer of
/// row width `w`, row-major.
pub open spec fn cropped_bytes(
    rgba: Seq<u8>,
    w: int,
    left: int,
    top: int,
    cw: int,
    ch: int,
) -> Seq<u8> {
    Seq::new(
        (4 * cw * ch) as nat,
        |k: int|
            {
                let p = k / 4;
                let c = k % 4;
                let j = p / cw;
                let i = p % cw;
                rgba[4 * ((top + j) * w + (left + i)) + c]
            },
    )
}

/// A visible pixel `(a, b)` strictly before scan position `(x, y)` in
/// row-major order.
pub open spec fn vis_before(rgba: Seq<u8>, w: int, x: int, y: int, a: int, b: int) -> bool {
    0 <= a < w && 0 <= b && (b < y || (b == y && a < x)) && visible_px(rgba, w, a, b)
}

proof fn lemma_pixel_index_bound(w: int, h: int, x: int, y: int)
    requires
        0 <= x < w,
        0 <= y < h,
    ensures
        0 <= y * w + x < w * h,
{
    assert(y * w + x < w * h) by (nonlinear_arith)
        requires
            0 <= x < w,
            0 <= y < h,
    ;
}

/// Crops the buffer to the bounding box of its visible pixels: the
/// smallest rectangle holding every pixel with non-zero alpha. A fully
/// transparent buffer has no such box and yields `None`.
pub fn crop_visible(width: u32, height: u32, rgba: &Vec<u8>) -> (r: Option<LayerImage>)
    requires
        rgba@.len() == 4 * (width as int) * (height as int),
    ensures
        match r {
            None => !any_visible(rgba@, width as int, height as int),
            Some(img) => {
                &&& any_visible(rgba@, width as int, height as int)
                &&& crop_box_of(
                    rgba@,
                    width as int,
                    height as int,
                    img.left as int,
                    img.top as int,
                    img.width as int,
                    img.height as int,
                )
                &&& img.width <= width
                &&& img.height <= height
                &&& img.bytes@ == cropped_bytes(
                    rgba@,
                    width as int,
                    img.left as int,
                    img.top as int,
                    img.width as int,
                    img.height as int,
                )
                &&& img.bytes@.len() == 4 * (img.width as int) * (img.height as int)
            },
        },
{
    let w = width as usize;
    let h = height as usize;
    let len = rgba.len();
    let ghost gw = w as int;
    let ghost gh = h as int;
    let mut found = false;
    let mut minx: usize = 0;
    let mut maxx: usize = 0;
    let mut miny: usize = 0;
    let mut maxy: usize = 0;
    let mut y: usize = 0;
    while y < h
        invariant
            0 <= y <= h,
            w == width as int,
            h == height as int,
            len == rgba@.len(),
            len == 4 * gw * gh,
            gw == w as int,
            gh == h as int,
            found ==> minx <= maxx < w && miny <= maxy < y,
            found ==> exists|b: int| #![trigger visible_px(rgba@, gw, minx as int, b)]
                miny <= b <= maxy && visible_px(rgba@, gw, minx as int, b),
            found ==> exists|b: int| #![trigger visible_px(rgba@, gw, maxx as int, b)]
                miny <= b <= maxy && visible_px(rgba@, gw, maxx as int, b),
            found ==> exists|a: int| #![trigger visible_px(rgba@, gw, a, miny as int)]
                minx <= a <= maxx && visible_px(rgba@, gw, a, miny as int),
            found ==> exists|a: int| #![trigger visible_px(rgba@, gw, a, maxy as int)]
                minx <= a <= maxx && visible_px(rgba@, gw, a, maxy as int),
            forall|a: int, b: int|
                #[trigger] vis_before(rgba@, gw, 0, y as int, a, b) ==> found && minx <= a <= maxx
                    && miny <= b <= maxy,
        decreases h - y,
    {
        let mut x: usize = 0;
        while x < w
            invariant
                0 <= x <= w,
                0 <= y < h,
                w == width as int,
                h == height as int,
                len == rgba@.len(),
                len == 4 * gw * gh,
                gw == w as int,
                gh == h as int,
                found ==> minx <= maxx < w && miny <= maxy <= y && miny < h,
                found ==> maxy < y || (maxy == y && x > 0),
                found ==> exists|b: int| #![trigger visible_px(rgba@, gw, minx as int, b)]
                    miny <= b <= maxy && visible_px(rgba@, gw, minx as int, b),
                found ==> exists|b: int| #![trigger visible_px(rgba@, gw, maxx as int, b)]
                    miny <= b <= maxy && visible_px(rgba@, gw, maxx as int, b),
                found ==> exists|a: int| #![trigger visible_px(rgba@, gw, a, miny as int)]
                    minx <= a <= maxx && visible_px(rgba@, gw, a, miny as int),
                found ==> exists|a: int| #![trigger visible_px(rgba@, gw, a, maxy as int)]
                    minx <= a <= maxx && visible_px(rgba@, gw, a, maxy as int),
                forall|a: int, b: int|
                    #[trigger] vis_before(rgba@, gw, x as int, y as int, a, b) ==> found && minx
                        <= a <= maxx && miny <= b <= maxy,
            decreases w - x,
        {
            proof {
                lemma_pixel_index_bound(gw, gh, x as int, y as int);
                assert(4 * (gw * gh) == 4 * gw * gh) by (nonlinear_arith);
                assert(4 * ((y as int) * gw + (x as int)) + 3 < len as int);
            }
            let idx = 4 * (y * w + x) + 3;
            if rgba[idx] != 0 {
                proof {
                    assert(visible_px(rgba@, gw, x as int, y as int));
                }
                if !found {
                    found = true;
                    minx = x;
                    maxx = x;
                    miny = y;
                    maxy = y;
                } else {
                    if x < minx {
                        minx = x;
                    }
                    if x > maxx {
                        maxx = x;
                    }
                    if y > maxy {
                        maxy = y;
                    }
                }
            }
            proof {
                assert forall|a: int, b: int|
                    #[trigger] vis_before(rgba@, gw, x + 1, y as int, a, b) implies found && minx
                    <= a <= maxx && miny <= b <= maxy by {
                    if !(b < y as int || (b == y as int && a < x as int)) {
                        assert(a == x as int && b == y as int);
                    } else {
                        assert(vis_before(rgba@, gw, x as int, y as int, a, b));
                    }
                }
            }
            x = x + 1;
        }
        proof {
            assert forall|a: int, b: int|
                #[trigger] vis_before(rgba@, gw, 0, y + 1, a, b) implies vis_before(
                rgba@,
                gw,
                w as int,
                y as int,
                a,
                b,
            ) by {}
        }
        y = y + 1;
    }
    if !found {
        proof {
            assert forall|a: int, b: int|
                !(0 <= a < gw && 0 <= b < gh && #[trigger] visible_px(rgba@, gw, a, b)) by {
                if 0 <= a < gw && 0 <= b < gh {
                    assert(vis_before(rgba@, gw, 0, gh, a, b) ==> found);
                }
            }
        }
        return None;
    }
    let left = minx;
    let top = miny;
    let cw = maxx - minx + 1;
    let ch = maxy - miny + 1;
    proof {
        assert forall|a: int, b: int|
            0 <= a < gw && 0 <= b < gh && #[trigger] visible_px(rgba@, gw, a, b) implies left <= a
            < left + cw && top <= b < top + ch by {
            assert(vis_before(rgba@, gw, 0, gh, a, b));
        }
        let bl = choose|b: int|
            miny as int <= b <= maxy as int && visible_px(rgba@, gw, minx as int, b);
        assert(top as int <= bl < top as int + ch as int && visible_px(rgba@, gw, left as int, bl));
        let br = choose|b: int|
            miny as int <= b <= maxy as int && visible_px(rgba@, gw, maxx as int, b);
        assert(top as int <= br < top as int + ch as int && visible_px(
            rgba@,
            gw,
            left as int + cw as int - 1,
            br,
        ));
        let at = choose|a: int|
            minx as int <= a <= maxx as int && visible_px(rgba@, gw, a, miny as int);
        assert(left as int <= at < left as int + cw as int && visible_px(rgba@, gw, at, top as int));
        let ab = choose|a: int|
            minx as int <= a <= maxx as int && visible_px(rgba@, gw, a, maxy as int);
        assert(left as int <= ab < left as int + cw as int && visible_px(
            rgba@,
            gw,
            ab,
            top as int + ch as int - 1,
        ));
        assert(crop_box_of(rgba@, gw, gh, left as int, top as int, cw as int, ch as int));
    }
    let ghost target = cropped_bytes(rgba@, gw, left as int, top as int, cw as int, ch as int);
    proof {
        assert(cw * ch <= gw * gh) by (nonlinear_arith)
            requires
                0 < (cw as int) && (cw as int) <= gw,
                0 < (ch as int) && (ch as int) <= gh,
        ;
    }
    let mut out: Vec<u8> = Vec::new();
    let mut j: usize = 0;
    while j < ch
        invariant
            0 <= j <= ch,
            w == width as int,
            len == rgba@.len(),
            len == 4 * gw * gh,
            gw == w as int,
            gh == h as int,
            0 <= left as int,
            0 <= top as int,
            1 <= cw as int,
            1 <= ch as int,
            left + cw <= w,
            top + ch <= h,
            cw as int * ch as int <= gw * gh,
            target == cropped_bytes(rgba@, gw, left as int, top as int, cw as int, ch as int),
            out@.len() == 4 * ((j as int) * (cw as int)),
            forall|k: int| 0 <= k < out@.len() ==> out@[k] == target[k],
        decreases ch - j,
    {
        let mut i: usize = 0;
        proof {
            assert((j as int) * (cw as int) + 0 <= (ch as int) * (cw as int)) by (nonlinear_arith)
                requires
                    0 <= (j as int) && (j as int) < (ch as int),
                    1 <= (cw as int),
            ;
        }
        while i < cw
            invariant
                0 <= i <= cw,
                0 <= j < ch,
                w == width as int,
                len == rgba@.len(),
                len == 4 * gw * gh,
                gw == w as int,
                gh == h as int,
                0 <= left as int,
                0 <= top as int,
                1 <= cw as int,
                1 <= ch as int,
                left + cw <= w,
                top + ch <= h,
                cw as int * ch as int <= gw * gh,
                (j as int) * (cw as int) + i <= (ch as int) * (cw as int),
                target == cropped_bytes(rgba@, gw, left as int, top as int, cw as int, ch as int),
                out@.len() == 4 * ((j as int) * (cw as int) + i as int),
                forall|k: int| 0 <= k < out@.len() ==> out@[k] == target[k],
            decreases cw - i,
        {
            proof {
                lemma_pixel_index_bound(gw, gh, left + i, top + j);
                assert((j as int) * (cw as int) + i < (ch as int) * (cw as int)) by (
                nonlinear_arith)
                    requires
                        0 <= (i as int) && (i as int) < (cw as int),
                        0 <= (j as int) && (j as int) < (ch as int),
                ;
            }
            proof {
                assert(4 * (gw * gh) == 4 * gw * gh) by (nonlinear_arith);
                assert(4 * (((top + j) as int) * gw + ((left + i) as int)) + 3 < len as int);
            }
            let src = 4 * ((top + j) * w + (left + i));
            let ghost kp = (j as int) * (cw as int) + (i as int);
            let ghost srcg = 4 * ((top + j) as int * gw + (left + i) as int);
            out.push(rgba[src]);
            out.push(rgba[src + 1]);
            out.push(rgba[src + 2]);
            out.push(rgba[src + 3]);
            proof {
                let cwa = cw as int;
                let cha = ch as int;
                assert(cha * cwa == cwa * cha) by (nonlinear_arith);
                assert(4 * (cwa * cha) == 4 * cwa * cha) by (nonlinear_arith);
                assert(4 * kp + 3 < target.len());
                assert((kp / (cw as int)) == j as int && (kp % (cw as int)) == i as int) by (
                nonlinear_arith)
                    requires
                        kp == (j as int) * (cw as int) + (i as int),
                        0 <= (i as int) && (i as int) < (cw as int),
                        0 <= (j as int),
                ;
                assert forall|c: int| 0 <= c < 4 implies #[trigger] target[4 * kp + c] == rgba@[srcg
                    + c] by {
                    assert((4 * kp + c) / 4 == kp);
                    assert((4 * kp + c) % 4 == c);
                }
                assert(out@.len() == 4 * kp + 4);
                assert forall|k: int| 0 <= k < out@.len() implies out@[k] == target[k] by {
                    if k >= 4 * kp {
                        assert(out@[k] == rgba@[srcg + (k - 4 * kp)]);
                        assert(target[k] == rgba@[srcg + (k - 4 * kp)]);
                    }
                }
            }
            i = i + 1;
        }
        proof {
            let ja = j as int;
            let cwa = cw as int;
            assert((ja + 1) * cwa == ja * cwa + cwa) by (nonlinear_arith);
            assert(out@.len() == 4 * ((ja + 1) * cwa));
        }
        j = j + 1;
    }
    proof {
        let cwa = cw as int;
        let cha = ch as int;
        assert(cha * cwa == cwa * cha) by (nonlinear_arith);
        assert(out@.len() == 4 * (cwa * cha));
        assert(target.len() == 4 * cwa * cha);
        assert(4 * (cwa * cha) == 4 * cwa * cha) by (nonlinear_arith);
        assert(out@ =~= target);
    }
    Some(
        LayerImage {
            left: left as u32,
            top: top as u32,
            width: cw as u32,
            height: ch as u32,
            bytes: out,
        },
    )
}

/// One channel byte scaled by `opacity / 255`, rounded to nearest.
fn scale_byte(b: u8, opacity: u8) -> (r: u8)
    ensures
        r == scaled(b, opacity),
{
    proof {
        assert((b as int) * (opacity as int) <= 255 * 255) by (nonlinear_arith)
            requires
                0 <= b as int <= 255,
                0 <= opacity as int <= 255,
        ;
    }
    let v: u32 = (b as u32) * (opacity as u32);
    ((v + 127) / 255) as u8
}

/// Composes one layer's export image: crops the canvas-sized RGBA buffer
/// to its visible bounding box, then scales the cropped pixels by the
/// layer's opacity. A buffer of the wrong size or with no visible pixel
/// yields the matching error; the layer is then skipped, not the batch.
pub fn compose_layer_image(width: u32, height: u32, rgba: Vec<u8>, opacity: u8) -> (r: Result<
    LayerImage,
    ExportError,
>)
    ensures
        match r {
            Ok(img) => {
                &&& rgba@.len() == 4 * (width as int) * (height as int)
                &&& any_visible(rgba@, width as int, height as int)
                &&& crop_box_of(
                    rgba@,
                    width as int,
                    height as int,
                    img.left as int,
                    img.top as int,
                    img.width as int,
                    img.height as int,
                )
                &&& img.width <= width
                &&& img.height <= height
                &&& img.bytes@ == premultiplied(
                    cropped_bytes(
                        rgba@,
                        width as int,
                        img.left as int,
                        img.top as int,
                        img.width as int,
                        img.height as int,
                    ),
                    opacity,
                )
                &&& img.bytes@.len() == 4 * (img.width as int) * (img.height as int)
            },
            Err(ExportError::BufferSizeMismatch) => rgba@.len() != 4 * (width as int) * (
            height as int),
            Err(ExportError::FullyTransparent) => rgba@.len() == 4 * (width as int) * (height as int)
                && !any_visible(rgba@, width as int, height as int),
        },
{
    proof {
        let wa = width as int;
        let ha = height as int;
        assert((4 * wa) * ha <= 4 * 0xffff_ffff * 0xffff_ffff) by (nonlinear_arith)
            requires
                0 <= wa <= 0xffff_ffff,
                0 <= ha <= 0xffff_ffff,
        ;
    }
    let need: u128 = 4u128 * (width as u128) * (height as u128);
    if (rgba.len() as u128) != need {
        return Err(ExportError::BufferSizeMismatch);
    }
    match crop_visible(width, height, &rgba) {
        None => Err(ExportError::FullyTransparent),
        Some(mut img) => {
            proof {
                let cwa = img.width as int;
                let cha = img.height as int;
                assert(4 * cwa * cha == 4 * (cwa * cha)) by (nonlinear_arith);
                assert(img.bytes@.len() % 4 == 0);
            }
            premultiply(&mut img.bytes, opacity);
            Ok(img)
        },
    }
}

/// Materializes a layer's image for a host. Cropped, the visible bounding
/// box is cut out and scaled by the layer's opacity; uncropped, the
/// canvas-sized buffer is returned whole, with the full canvas rectangle.
pub fn materialize_image(
    width: u32,
    height: u32,
    rgba: Vec<u8>,
    opacity: u8,
    cropped: bool,
) -> (r: Result<LayerImage, ExportError>)
    ensures
        match r {
            Ok(img) => {
                &&& rgba@.len() == 4 * (width as int) * (height as int)
                &&& img.width <= width
                &&& img.height <= height
                &&& if cropped {
                    &&& any_visible(rgba@, width as int, height as int)
                    &&& crop_box_of(
                        rgba@,
                        width as int,
                        height as int,
                        img.left as int,
                        img.top as int,
                        img.width as int,
                        img.height as int,
                    )
                    &&& img.bytes@ == premultiplied(
                        cropped_bytes(
                            rgba@,
                            width as int,
                            img.left as int,
                            img.top as int,
                            img.width as int,
                            img.height as int,
                        ),
                        opacity,
                    )
                } else {
                    &&& img.left == 0
                    &&& img.top == 0
                    &&& img.width == width
                    &&& img.height == height
                    &&& img.bytes@ == rgba@
                }
            },
            Err(ExportError::BufferSizeMismatch) => rgba@.len() != 4 * (width as int) * (
            height as int),
            Err(ExportError::FullyTransparent) => cropped && rgba@.len() == 4 * (width as int) * (
            height as int) && !any_visible(rgba@, width as int, height as int),
        },
{
    if cropped {
        compose_layer_image(width, height, rgba, opacity)
    } else {
        proof {
            let wa = width as int;
            let ha = height as int;
            assert((4 * wa) * ha <= 4 * 0xffff_ffff * 0xffff_ffff) by (nonlinear_arith)
                requires
                    0 <= wa <= 0xffff_ffff,
                    0 <= ha <= 0xffff_ffff,
            ;
        }
        let need: u128 = 4u128 * (width as u128) * (height as u128);
        if (rgba.len() as u128) != need {
            return Err(ExportError::BufferSizeMismatch);
        }
        Ok(LayerImage { left: 0, top: 0, width, height, bytes: rgba })
    }
}

/// Scales every channel byte of every visible pixel by `opacity / 255` in
/// place; fully transparent pixels are left untouched.
pub fn premultiply(bytes: &mut Vec<u8>, opacity: u8)
    requires
        old(bytes)@.len() % 4 == 0,
    ensures
        final(bytes)@ == premultiplied(old(bytes)@, opacity),
{
    let n = bytes.len();
    let pixels = n / 4;
    let mut p: usize = 0;
    while p < pixels
        invariant
            0 <= p <= pixels,
            n == old(bytes)@.len(),
            n % 4 == 0,
            pixels == n / 4,
            bytes@.len() == n,
            forall|k: int| 0 <= k < 4 * p ==> bytes@[k] == premultiplied(old(bytes)@, opacity)[k],
            forall|k: int| 4 * p <= k < n ==> bytes@[k] == old(bytes)@[k],
        decreases pixels - p,
    {
        let base = 4 * p;
        let a = bytes[base + 3];
        proof {
            assert((4 * p as int + 3) / 4 == p as int);
        }
        if a != 0 {
            let b0 = scale_byte(bytes[base], opacity);
            bytes.set(base, b0);
            let b1 = scale_byte(bytes[base + 1], opacity);
            bytes.set(base + 1, b1);
            let b2 = scale_byte(bytes[base + 2], opacity);
            bytes.set(base + 2, b2);
            let b3 = scale_byte(bytes[base + 3], opacity);
            bytes.set(base + 3, b3);
        }
        proof {
            assert forall|k: int| 0 <= k < 4 * (p + 1) implies bytes@[k] == premultiplied(
                old(bytes)@,
                opacity,
            )[k] by {
                if 4 * p <= k {
                    assert(k / 4 == p as int);
                }
            }
        }
        p = p + 1;
    }
    proof {
        assert(bytes@ =~= premultiplied(old(bytes)@, opacity));
    }
}

} // verus!
