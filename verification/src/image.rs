use vstd::prelude::*;
use vstd::arithmetic::div_mod::{lemma_fundamental_div_mod, lemma_mod_bound};
use crate::bytes::clone_bytes;
use crate::geom::{MARGIN, PAGE_TOP, PAGE_WIDTH, PARAGRAPH_SPACING, USABLE_WIDTH};
use crate::ops::{pages_view, with_appended, ConvertError, DrawOp, LayoutState, OpV};

verus! {

// The image placer.  Image bytes are decoded only for their intrinsic pixel
// dimensions; the engine scales the image to the usable width, shrinks it
// further if it would not fit a fresh page, breaks the page if it does not
// fit the remaining space, centers it horizontally and advances the cursor.
// Only PNG and JPEG signatures are accepted; anything else aborts the
// conversion.

/// The eight-byte PNG signature.
pub open spec fn is_png_sig(b: Seq<u8>) -> bool {
    b.len() >= 8 && b[0] == 137 && b[1] == 80 && b[2] == 78 && b[3] == 71 && b[4] == 13 && b[5]
        == 10 && b[6] == 26 && b[7] == 10
}

/// The three-byte JPEG signature `FF D8 FF`.
pub open spec fn is_jpeg_sig(b: Seq<u8>) -> bool {
    b.len() >= 3 && b[0] == 0xff && b[1] == 0xd8 && b[2] == 0xff
}

/// The image format detected from the leading bytes.
#[derive(Clone, Copy, Debug, PartialEq, Eq, Structural)]
pub enum ImageKind {
    Png,
    Jpeg,
    Other,
}

/// Relies on `printpdf::image_crate::guess_format`: it matches the buffer's
/// leading bytes against a table of magic signatures, answering PNG exactly
/// for the eight-byte PNG signature and JPEG exactly for `FF D8 FF`.  Every
/// other answer, including an unrecognised buffer, is reported as `Other`.
#[verifier::external_body]
fn detect_image_format(data: &Vec<u8>) -> (r: ImageKind)
    ensures
        r == ImageKind::Png <==> is_png_sig(data@),
        r == ImageKind::Jpeg <==> is_jpeg_sig(data@),
{
    match printpdf::image_crate::guess_format(data) {
        Ok(printpdf::image_crate::ImageFormat::Png) => ImageKind::Png,
        Ok(printpdf::image_crate::ImageFormat::Jpeg) => ImageKind::Jpeg,
        _ => ImageKind::Other,
    }
}

/// The pixel dimensions that the PNG decoder reads from these bytes, if it
/// accepts them; a function of the bytes alone.
pub uninterp spec fn png_dimensions(data: Seq<u8>) -> Option<(u32, u32)>;

/// The pixel dimensions that the JPEG decoder reads from these bytes, if it
/// accepts them; a function of the bytes alone.
pub uninterp spec fn jpeg_dimensions(data: Seq<u8>) -> Option<(u32, u32)>;

/// Relies on `printpdf::image_crate`'s `PngDecoder`, which parses the PNG
/// header and reports the pixel width and height; decoding is deterministic
/// in the bytes.
#[verifier::external_body]
fn decode_png_dimensions(data: &Vec<u8>) -> (r: Option<(u32, u32)>)
    ensures
        r == png_dimensions(data@),
{
    let mut reader = std::io::Cursor::new(data.as_slice());
    match printpdf::image_crate::codecs::png::PngDecoder::new(&mut reader) {
        Ok(dec) => Some(printpdf::image_crate::ImageDecoder::dimensions(&dec)),
        Err(_) => None,
    }
}

/// Relies on `printpdf::image_crate`'s `JpegDecoder`, which parses the JPEG
/// headers and reports the pixel width and height; decoding is deterministic
/// in the bytes.
#[verifier::external_body]
fn decode_jpeg_dimensions(data: &Vec<u8>) -> (r: Option<(u32, u32)>)
    ensures
        r == jpeg_dimensions(data@),
{
    let mut reader = std::io::Cursor::new(data.as_slice());
    match printpdf::image_crate::codecs::jpeg::JpegDecoder::new(&mut reader) {
        Ok(dec) => Some(printpdf::image_crate::ImageDecoder::dimensions(&dec)),
        Err(_) => None,
    }
}

/// The dimensions an image block decodes to: by the format its signature
/// names, or nothing for an unsupported signature.
pub open spec fn decoded_dimensions(data: Seq<u8>) -> Option<(u32, u32)> {
    if is_png_sig(data) {
        png_dimensions(data)
    } else if is_jpeg_sig(data) {
        jpeg_dimensions(data)
    } else {
        None
    }
}

/// Why an image block fails, if it does: an unsupported signature, bytes the
/// decoder rejects, or a degenerate zero pixel dimension.
pub open spec fn image_block_error(data: Seq<u8>) -> Option<ConvertError> {
    if !is_png_sig(data) && !is_jpeg_sig(data) {
        Some(ConvertError::UnsupportedImage)
    } else {
        match decoded_dimensions(data) {
            Option::None => Some(ConvertError::ImageDecode),
            Option::Some(d) => if d.0 == 0 || d.1 == 0 {
                Some(ConvertError::ImageDecode)
            } else {
                None
            },
        }
    }
}

/// The decoded dimensions of a successfully decoded block, as integers.
pub open spec fn dims_of(data: Seq<u8>) -> (int, int) {
    match decoded_dimensions(data) {
        Option::Some(d) => (d.0 as int, d.1 as int),
        Option::None => (0, 0),
    }
}

/// Whether an image scaled to the usable width fits the space left on the
/// current page.
pub open spec fn image_fits(iw: int, ih: int, y: int) -> bool {
    ih * (USABLE_WIDTH as int) / iw <= y - MARGIN as int
}

/// The scaled width and height of an image placed with `avail` units of
/// vertical room: scaled to the usable width, or shrunk further to the room
/// if the width-fit height exceeds it.
pub open spec fn image_dims_at(iw: int, ih: int, avail: int) -> (int, int) {
    let sh0 = ih * (USABLE_WIDTH as int) / iw;
    if sh0 <= avail {
        (USABLE_WIDTH as int, sh0)
    } else {
        (iw * avail / ih, avail)
    }
}

/// The placed-image instruction at cursor `y`: scaled to the room below the
/// cursor and centered horizontally.
pub open spec fn image_op(data: Seq<u8>, iw: int, ih: int, y: int) -> OpV {
    let dims = image_dims_at(iw, ih, y - MARGIN as int);
    OpV::Image {
        data,
        x: (PAGE_WIDTH as int - dims.0) / 2,
        y: y - dims.1,
        width: dims.0,
        height: dims.1,
    }
}

/// The cursor after placing an image at cursor `y`: below the image, plus
/// one paragraph spacing.
pub open spec fn image_end_y(iw: int, ih: int, y: int) -> int {
    y - image_dims_at(iw, ih, y - MARGIN as int).1 - PARAGRAPH_SPACING as int
}

/// Scaling facts of a placed image: the scaled height never exceeds the
/// room; scaled to the usable width the height is the exact rounded image
/// of the aspect ratio, and when shrunk to the room the width is, and never
/// grows past the width-fit value.
pub proof fn lemma_image_scaling(iw: int, ih: int, avail: int)
    requires
        1 <= iw,
        1 <= ih,
        0 <= avail,
    ensures
        ({
            let dims = image_dims_at(iw, ih, avail);
            &&& 0 <= dims.0 <= USABLE_WIDTH as int
            &&& 0 <= dims.1 <= avail
            &&& ih * (USABLE_WIDTH as int) / iw <= avail ==> dims.0 == USABLE_WIDTH as int && iw
                * dims.1 <= ih * (USABLE_WIDTH as int) < iw * (dims.1 + 1)
            &&& ih * (USABLE_WIDTH as int) / iw > avail ==> dims.1 == avail && ih * dims.0 <= iw
                * avail < ih * (dims.0 + 1)
        }),
{
    let uw = USABLE_WIDTH as int;
    let sh0 = ih * uw / iw;
    lemma_fundamental_div_mod(ih * uw, iw);
    lemma_mod_bound(ih * uw, iw);
    assert(0 <= ih * uw) by (nonlinear_arith)
        requires
            0 <= ih,
            0 <= uw,
    ;
    assert(iw * sh0 <= ih * uw < iw * (sh0 + 1)) by (nonlinear_arith)
        requires
            ih * uw == iw * ((ih * uw) / iw) + ((ih * uw) % iw),
            0 <= (ih * uw) % iw < iw,
            sh0 == ih * uw / iw,
    ;
    assert(0 <= sh0) by (nonlinear_arith)
        requires
            iw * sh0 <= ih * uw,
            0 <= ih * uw,
            iw * sh0 <= ih * uw < iw * (sh0 + 1),
            1 <= iw,
    ;
    if sh0 <= avail {
    } else {
        let sw = iw * avail / ih;
        lemma_fundamental_div_mod(iw * avail, ih);
        lemma_mod_bound(iw * avail, ih);
        assert(0 <= iw * avail) by (nonlinear_arith)
            requires
                0 <= iw,
                0 <= avail,
        ;
        assert(ih * sw <= iw * avail < ih * (sw + 1)) by (nonlinear_arith)
            requires
                iw * avail == ih * ((iw * avail) / ih) + ((iw * avail) % ih),
                0 <= (iw * avail) % ih < ih,
                sw == iw * avail / ih,
        ;
        assert(0 <= sw) by (nonlinear_arith)
            requires
                0 <= iw * avail,
                ih * sw <= iw * avail < ih * (sw + 1),
                1 <= ih,
        ;
        // Shrinking never widens past the width-fit value.
        assert(iw * (avail + 1) <= iw * sh0) by (nonlinear_arith)
            requires
                avail + 1 <= sh0,
                1 <= iw,
        ;
        assert(iw * avail < iw * (avail + 1)) by (nonlinear_arith)
            requires
                1 <= iw,
        ;
        assert(ih * sw < ih * uw);
        assert(sw < uw) by (nonlinear_arith)
            requires
                ih * sw < ih * uw,
                1 <= ih,
        ;
    }
}

/// A placed image is horizontally centered: twice its left edge plus its
/// width is the page width, up to the one unit lost to rounding.
pub proof fn lemma_image_centering(data: Seq<u8>, iw: int, ih: int, y: int)
    requires
        1 <= iw,
        1 <= ih,
        MARGIN as int <= y,
    ensures
        ({
            let op = image_op(data, iw, ih, y);
            &&& op matches OpV::Image { x, width, .. } && (2 * x + width == PAGE_WIDTH as int
                || 2 * x + width == PAGE_WIDTH as int - 1)
        }),
{
    lemma_image_scaling(iw, ih, y - MARGIN as int);
    let dims = image_dims_at(iw, ih, y - MARGIN as int);
    let x = (PAGE_WIDTH as int - dims.0) / 2;
    lemma_fundamental_div_mod(PAGE_WIDTH as int - dims.0, 2);
    lemma_mod_bound(PAGE_WIDTH as int - dims.0, 2);
}

/// Place one decoded image: break the page first when the width-fit image is
/// taller than the room left on this page, scale, center, emit the single
/// image instruction and advance the cursor below it.
pub fn place_image(st: &mut LayoutState, data: &Vec<u8>, iw: u32, ih: u32)
    requires
        old(st).wf(),
        1 <= iw,
        1 <= ih,
        old(st).y >= -0x0800_0000_0000_0000,
    ensures
        final(st).wf(),
        image_fits(iw as int, ih as int, old(st).y as int) ==> pages_view(final(st).pages@)
            == with_appended(
            pages_view(old(st).pages@),
            seq![image_op(data@, iw as int, ih as int, old(st).y as int)],
        ) && final(st).y as int == image_end_y(iw as int, ih as int, old(st).y as int),
        !image_fits(iw as int, ih as int, old(st).y as int) ==> pages_view(final(st).pages@)
            == pages_view(old(st).pages@).push(
            seq![image_op(data@, iw as int, ih as int, PAGE_TOP as int)],
        ) && final(st).y as int == image_end_y(iw as int, ih as int, PAGE_TOP as int),
{
    let iw64: i64 = iw as i64;
    let ih64: i64 = ih as i64;
    let ghost fits = image_fits(iw as int, ih as int, old(st).y as int);
    proof {
        lemma_image_scaling(iw as int, ih as int, PAGE_TOP as int - MARGIN as int);
        if old(st).y as int - MARGIN as int >= 0 {
            lemma_image_scaling(iw as int, ih as int, old(st).y as int - MARGIN as int);
        }
    }
    let sh0: i64 = ih64 * USABLE_WIDTH / iw64;
    proof {
        lemma_fundamental_div_mod(ih as int * (USABLE_WIDTH as int), iw as int);
        lemma_mod_bound(ih as int * (USABLE_WIDTH as int), iw as int);
        assert(0 <= ih as int * (USABLE_WIDTH as int) <= 0xffff_ffff * 760) by (nonlinear_arith)
            requires
                0 <= ih as int <= 0xffff_ffff,
        ;
        assert(sh0 as int == ih as int * (USABLE_WIDTH as int) / iw as int);
        assert(iw as int * (sh0 as int) <= ih as int * (USABLE_WIDTH as int) < iw as int * (
        sh0 as int + 1)) by (nonlinear_arith)
            requires
                ih as int * (USABLE_WIDTH as int) == (iw as int) * ((ih as int * (
                USABLE_WIDTH as int)) / (iw as int)) + ((ih as int * (USABLE_WIDTH as int)) % (
                iw as int)),
                0 <= (ih as int * (USABLE_WIDTH as int)) % (iw as int) < (iw as int),
                sh0 as int == ih as int * (USABLE_WIDTH as int) / (iw as int),
        ;
        assert(0 <= sh0 as int && sh0 as int <= ih as int * (USABLE_WIDTH as int)) by (
        nonlinear_arith)
            requires
                iw as int * (sh0 as int) <= ih as int * (USABLE_WIDTH as int) < iw as int * (
                sh0 as int + 1),
                0 <= ih as int * (USABLE_WIDTH as int),
                1 <= iw as int,
        ;
    }
    let ghost entry_y = st.y as int;
    st.ensure_page_for(sh0);
    let avail: i64 = st.remaining_height();
    let ghost page_y = st.y as int;
    proof {
        assert(page_y == if fits {
            entry_y
        } else {
            PAGE_TOP as int
        });
        if sh0 > avail {
            assert(page_y == PAGE_TOP as int);
        }
        lemma_image_scaling(iw as int, ih as int, PAGE_TOP as int - MARGIN as int);
    }
    let sw: i64;
    let sh: i64;
    if sh0 <= avail {
        sw = USABLE_WIDTH;
        sh = sh0;
    } else {
        proof {
            assert(0 <= iw as int * (avail as int) <= 0xffff_ffff * 1108) by (nonlinear_arith)
                requires
                    0 <= iw as int <= 0xffff_ffff,
                    0 <= avail as int <= 1108,
            ;
        }
        sw = iw64 * avail / ih64;
        sh = avail;
        proof {
            lemma_image_scaling(iw as int, ih as int, avail as int);
        }
    }
    proof {
        assert((sw as int, sh as int) == image_dims_at(iw as int, ih as int, page_y - MARGIN as int));
        lemma_image_scaling(iw as int, ih as int, page_y - MARGIN as int);
    }
    let x: i64 = (PAGE_WIDTH - sw) / 2;
    let op = DrawOp::Image { data: clone_bytes(data), x, y: st.y - sh, width: sw, height: sh };
    proof {
        assert(op@ == image_op(data@, iw as int, ih as int, page_y));
    }
    st.emit(op);
    st.advance(sh + PARAGRAPH_SPACING);
}

/// Process one image block: detect the format from the signature, decode the
/// pixel dimensions, and place the image.  An unsupported signature or a
/// failed decode aborts the conversion with nothing drawn.
pub fn process_image(st: &mut LayoutState, data: &Vec<u8>) -> (r: Result<(), ConvertError>)
    requires
        old(st).wf(),
        old(st).y >= -0x0800_0000_0000_0000,
    ensures
        final(st).wf(),
        (r is Err) <==> (image_block_error(data@) is Some),
        r matches Err(e) ==> image_block_error(data@) == Some(e) && *final(st) == *old(st),
        r is Ok ==> ({
            let (iw, ih) = dims_of(data@);
            &&& 1 <= iw && 1 <= ih
            &&& image_fits(iw, ih, old(st).y as int) ==> pages_view(final(st).pages@)
                == with_appended(
                pages_view(old(st).pages@),
                seq![image_op(data@, iw, ih, old(st).y as int)],
            ) && final(st).y as int == image_end_y(iw, ih, old(st).y as int)
            &&& !image_fits(iw, ih, old(st).y as int) ==> pages_view(final(st).pages@)
                == pages_view(old(st).pages@).push(
                seq![image_op(data@, iw, ih, PAGE_TOP as int)],
            ) && final(st).y as int == image_end_y(iw, ih, PAGE_TOP as int)
        }),
{
    let kind = detect_image_format(data);
    let dims: Option<(u32, u32)> = match kind {
        ImageKind::Png => decode_png_dimensions(data),
        ImageKind::Jpeg => decode_jpeg_dimensions(data),
        ImageKind::Other => {
            return Err(ConvertError::UnsupportedImage);
        },
    };
    match dims {
        None => Err(ConvertError::ImageDecode),
        Some((w, h)) => {
            if w == 0 || h == 0 {
                return Err(ConvertError::ImageDecode);
            }
            place_image(st, data, w, h);
            Ok(())
        },
    }
}

} // verus!
