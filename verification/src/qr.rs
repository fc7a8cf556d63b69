//! QR rendering of a code: level-L error correction, no quiet zone, black
//! modules on white, as a square RGBA8 buffer.

use vstd::prelude::*;
use vstd::utf8::encode_utf8;
use vstd::arithmetic::div_mod::{
    lemma_div_multiples_vanish_fancy, lemma_fundamental_div_mod_converse, lemma_div_is_ordered,
};
use vstd::arithmetic::mul::lemma_mul_inequality;

verus! {

/// The level-L QR symbol that the `qrcode` crate builds for some bytes: its
/// width in modules and its modules row by row (`true` for dark), or `None`
/// when the data does not fit in a symbol.
pub uninterp spec fn qr_level_l(data: Seq<u8>) -> Option<(usize, Seq<bool>)>;

/// `qrcode::QrCode::with_error_correction_level(data, EcLevel::L)`, read back
/// with `width` and `to_colors`: the symbol of the data, or `None` when the
/// crate refuses it (the data is too long). A symbol is 21 to 177 modules
/// wide (versions 1 to 40) with `width * width` modules.
#[verifier::external_body]
fn qr_modules(data: &[u8]) -> (r: Option<(usize, Vec<bool>)>)
    ensures
        match r {
            Some((w, m)) => qr_level_l(data@) == Some((w, m@)) && 21 <= w <= 177 && m@.len() == w
                * w,
            None => qr_level_l(data@) is None,
        },
{
    match qrcode::QrCode::with_error_correction_level(data, qrcode::EcLevel::L) {
        Ok(code) => Some(
            (
                code.width(),
                code.to_colors().into_iter().map(|c| c == qrcode::Color::Dark).collect(),
            ),
        ),
        Err(_) => None,
    }
}

/// Channel `ch` of the pixel at row `y`, column `x` of a rendering of a
/// `w`-module-wide symbol at `scale` pixels per module: black and opaque on a
/// dark module, white and opaque elsewhere.
pub open spec fn pixel_channel(w: int, modules: Seq<bool>, scale: int, y: int, x: int, ch: int) -> u8 {
    if modules[(y / scale) * w + x / scale] {
        if ch == 3 {
            255
        } else {
            0
        }
    } else {
        255
    }
}

/// The RGBA buffer of a symbol rendered at `scale` pixels per module: rows
/// of `w * scale` pixels, four bytes each.
pub open spec fn render_spec(w: int, modules: Seq<bool>, scale: int) -> Seq<u8> {
    let side = w * scale;
    Seq::new(
        (side * side * 4) as nat,
        |p: int| pixel_channel(w, modules, scale, (p / 4) / side, (p / 4) % side, p % 4),
    )
}

proof fn lemma_pixel_index(side: int, y: int, x: int, ch: int)
    requires
        side > 0,
        0 <= y,
        0 <= x < side,
        0 <= ch < 4,
    ensures
        ({
            let p = 4 * (y * side + x) + ch;
            &&& p / 4 == y * side + x
            &&& (p / 4) / side == y
            &&& (p / 4) % side == x
            &&& p % 4 == ch
        }),
{
    lemma_fundamental_div_mod_converse(4 * (y * side + x) + ch, 4, y * side + x, ch);
    lemma_fundamental_div_mod_converse(y * side + x, side, y, x);
}

proof fn lemma_module_index(w: int, scale: int, y: int, x: int)
    requires
        w > 0,
        scale > 0,
        0 <= y < w * scale,
        0 <= x < w * scale,
    ensures
        0 <= y / scale < w,
        0 <= x / scale < w,
        0 <= (y / scale) * w + x / scale < w * w,
{
    lemma_div_is_ordered(y, w * scale - 1, scale);
    lemma_div_is_ordered(x, w * scale - 1, scale);
    lemma_div_multiples_vanish_fancy(w - 1, scale - 1, scale);
    assert((w - 1) * scale + (scale - 1) == w * scale - 1) by (nonlinear_arith);
    lemma_div_is_ordered(0, y, scale);
    lemma_div_is_ordered(0, x, scale);
    lemma_mul_inequality(y / scale, w - 1, w);
    assert((y / scale) * w + x / scale <= (w - 1) * w + (w - 1));
    assert((w - 1) * w + (w - 1) == w * w - 1) by (nonlinear_arith);
}

/// Renders a symbol of `w * w` modules to a square RGBA8 buffer at `scale`
/// pixels per module.
pub fn render_modules(w: usize, modules: &[bool], scale: usize) -> (r: (usize, Vec<u8>))
    requires
        1 <= w,
        modules@.len() == w * w,
        w * scale * (w * scale) * 4 <= usize::MAX,
    ensures
        r.0 == w * scale,
        r.1@ == render_spec(w as int, modules@, scale as int),
{
    proof {
        let ws = w * scale;
        assert(ws <= ws * ws * 4) by (nonlinear_arith)
            requires
                ws >= 0,
        ;
    }
    let side = w * scale;
    proof {
        if scale >= 1 {
            assert(w * w <= side * side * 4) by (nonlinear_arith)
                requires
                    side == w * scale,
                    w >= 1,
                    scale >= 1,
            ;
        }
    }
    let mut rgba: Vec<u8> = Vec::new();
    let ghost total = side * side * 4;
    let mut y: usize = 0;
    while y < side
        invariant
            side == w * scale,
            1 <= w,
            modules@.len() == w * w,
            side * side * 4 <= usize::MAX,
            y <= side,
            rgba@ == render_spec(w as int, modules@, scale as int).take(4 * (y * side)),
            side > 0 ==> w * w <= side * side * 4,
        decreases side - y,
    {
        let mut x: usize = 0;
        proof {
            assert(scale > 0);
            assert(y * side + side <= side * side) by (nonlinear_arith)
                requires
                    y < side,
            ;
        }
        while x < side
            invariant
                side == w * scale,
                1 <= w,
                scale > 0,
                modules@.len() == w * w,
                side * side * 4 <= usize::MAX,
                y < side,
                y * side + side <= side * side,
                w * w <= side * side * 4,
                x <= side,
                rgba@ == render_spec(w as int, modules@, scale as int).take(4 * (y * side + x)),
            decreases side - x,
        {
            proof {
                lemma_module_index(w as int, scale as int, y as int, x as int);
            }
            let k = (y / scale) * w + x / scale;
            let dark = modules[k];
            let ghost base = 4 * (y * side + x);
            let ghost spec = render_spec(w as int, modules@, scale as int);
            let ghost before = rgba@;
            proof {
                assert(spec.len() == side * side * 4);
                assert(base + 4 <= spec.len());
                assert forall|ch: int| 0 <= ch < 4 implies #[trigger] spec[base + ch]
                    == pixel_channel(w as int, modules@, scale as int, y as int, x as int, ch) by {
                    lemma_pixel_index(side as int, y as int, x as int, ch);
                }
            }
            if dark {
                rgba.push(0);
                rgba.push(0);
                rgba.push(0);
                rgba.push(255);
            } else {
                rgba.push(255);
                rgba.push(255);
                rgba.push(255);
                rgba.push(255);
            }
            assert(rgba@ =~= before + seq![spec[base], spec[base + 1], spec[base + 2], spec[base + 3]]);
            x = x + 1;
            assert(spec.take(base + 4) =~= spec.take(base) + seq![spec[base], spec[base + 1], spec[
                base + 2], spec[base + 3]]);
            assert(rgba@ =~= spec.take(4 * (y * side + x)));
        }
        y = y + 1;
        assert(4 * ((y - 1) * side + side) == 4 * (y * side)) by (nonlinear_arith);
    }
    proof {
        assert(side * side * 4 == 4 * (side * side)) by (nonlinear_arith);
        assert(rgba@ =~= render_spec(w as int, modules@, scale as int));
    }
    (side, rgba)
}

/// Renders `data` as a level-L QR symbol, without quiet zone, to a square
/// RGBA8 buffer at `scale` pixels per module; black modules on white.
pub fn qr_rgba(data: &str, scale: usize) -> (r: (usize, Vec<u8>))
    requires
        qr_level_l(encode_utf8(data@)) matches Some((w, m)) && w * scale * (w * scale) * 4
            <= usize::MAX,
    ensures
        qr_level_l(encode_utf8(data@)) matches Some((w, m)) && r.0 == w * scale && r.1@
            == render_spec(w as int, m, scale as int),
{
    match qr_modules(data.as_bytes()) {
        Some((w, modules)) => render_modules(w, modules.as_slice(), scale),
        None => (0, Vec::new()),
    }
}

/// Renders `data` as `qr_rgba` does, or gives `None` when the data does not
/// fit in a QR symbol or the buffer would not fit in memory.
pub fn try_qr_rgba(data: &str, scale: usize) -> (r: Option<(usize, Vec<u8>)>)
    ensures
        match qr_level_l(encode_utf8(data@)) {
            Some((w, m)) => if w * scale * (w * scale) * 4 <= usize::MAX {
                r matches Some(v) && v.0 == w * scale && v.1@ == render_spec(w as int, m, scale as int)
            } else {
                r is None
            },
            None => r is None,
        },
{
    match qr_modules(data.as_bytes()) {
        Some((w, _modules)) => {
            let side = match w.checked_mul(scale) {
                Some(s) => s,
                None => {
                    proof {
                        let ws = w * scale;
                        assert(ws <= ws * ws * 4) by (nonlinear_arith)
                            requires
                                ws >= 0,
                        ;
                    }
                    return None;
                },
            };
            let area = match side.checked_mul(side) {
                Some(a) => a,
                None => {
                    proof {
                        assert(side * side <= side * side * 4) by (nonlinear_arith)
                            requires
                                side >= 0,
                        ;
                    }
                    return None;
                },
            };
            match area.checked_mul(4) {
                Some(_) => Some(qr_rgba(data, scale)),
                None => None,
            }
        },
        None => None,
    }
}

/// The rendering is row-major, four bytes per pixel: byte `p` is channel
/// `p % 4` of the pixel at row `(p / 4) / side`, column `(p / 4) % side`,
/// where `side = w * scale`; that pixel is black and opaque (0, 0, 0, 255)
/// when module `(row / scale) * w + column / scale` of the symbol (its
/// modules row by row) is dark, and white and opaque (255, 255, 255, 255)
/// otherwise.
pub proof fn lemma_render_pixels(w: int, modules: Seq<bool>, scale: int)
    requires
        w >= 1,
        scale >= 1,
        modules.len() == w * w,
    ensures
        ({
            let side = w * scale;
            let rgba = render_spec(w, modules, scale);
            &&& rgba.len() == side * side * 4
            &&& forall|p: int|
                0 <= p < rgba.len() ==> {
                    let row = (p / 4) / side;
                    let col = (p / 4) % side;
                    let dark = modules[(row / scale) * w + col / scale];
                    #[trigger] rgba[p] == if dark && p % 4 != 3 {
                        0u8
                    } else {
                        255u8
                    }
                }
        }),
{
    let side = w * scale;
    assert(side >= 1) by (nonlinear_arith)
        requires
            w >= 1,
            scale >= 1,
            side == w * scale,
    ;
    assert(side * side * 4 >= 0) by (nonlinear_arith)
        requires
            side >= 1,
    ;
}

} // verus!
