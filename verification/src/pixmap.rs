//! A simple pixmap type: premultiplied RGBA bytes, row by row.

use vstd::prelude::*;
use crate::fine::compose::div_255;
use zune_png::error::PngDecodeErrors;
use zune_png::zune_core::options::DecoderOptions;
use zune_png::zune_core::result::DecodingResult;
use zune_png::PngDecoder;

verus! {

#[derive(Debug)]
pub struct Pixmap {
    pub width: usize,
    pub height: usize,
    pub buf: Vec<u8>,
}

impl Pixmap {
    /// The buffer holds 4 bytes for each pixel.
    pub open spec fn wf(&self) -> bool {
        self.buf@.len() == self.width * self.height * 4
    }

    /// A transparent pixmap of `width` x `height` pixels.
    pub fn new(width: usize, height: usize) -> (r: Pixmap)
        requires
            width * height * 4 <= usize::MAX,
        ensures
            r.width == width,
            r.height == height,
            r.buf@ == Seq::new((width * height * 4) as nat, |i: int| 0u8),
            r.wf(),
    {
        proof {
            assert(width * height <= width * height * 4) by (nonlinear_arith)
                requires width * height >= 0;
        }
        let buf = vec![0u8; width * height * 4];
        let r = Self { width, height, buf };
        assert(r.buf@ =~= Seq::new((width * height * 4) as nat, |i: int| 0u8));
        r
    }

    pub fn data(&self) -> (r: &[u8])
        ensures
            r@ == self.buf@,
    {
        self.buf.as_slice()
    }

    pub fn data_mut(&mut self) -> (r: &mut [u8])
        ensures
            r@ == old(self).buf@,
            final(self).buf@ == final(r)@,
            final(self).width == old(self).width,
            final(self).height == old(self).height,
    {
        self.buf.as_mut_slice()
    }
}

/// A zune-png decoder over borrowed bytes, held without its fields.
#[verifier::external_body]
struct PngDecoderBox<'a> {
    decoder: PngDecoder<&'a [u8]>,
}

/// The decoder options of `zune-core`, carried through opaquely.
#[verifier::external_type_specification]
#[verifier::external_body]
pub struct ExDecoderOptions(DecoderOptions);

/// The decoded samples of `zune-core`, carried through opaquely.
#[verifier::external_type_specification]
#[verifier::external_body]
pub struct ExDecodingResult(DecodingResult);

/// The decoding errors of `zune-png`, carried through opaquely.
#[verifier::external_type_specification]
#[verifier::external_body]
pub struct ExPngDecodeErrors(PngDecodeErrors);

/// Command-line decoder options (`DecoderOptions::new_cmd`), and whether they add an
/// alpha channel to images that have none.
struct PngOptions {
    options: DecoderOptions,
    add_alpha: Ghost<bool>,
}

/// A PNG decoder, with the bytes it decodes, whether its options add an alpha channel,
/// whether it is fresh (no header decoding tried yet), and whether its headers have been
/// decoded with its pixels still to decode.
struct PngReader<'a> {
    decoder: PngDecoderBox<'a>,
    data: Ghost<Seq<u8>>,
    add_alpha: Ghost<bool>,
    fresh: Ghost<bool>,
    headers: Ghost<bool>,
}

/// The decoded pixels of an image, with the bytes and option they were decoded from.
struct PngPixels {
    result: DecodingResult,
    data: Ghost<Seq<u8>>,
    add_alpha: Ghost<bool>,
}

/// Whether a fresh decoder with command-line options (adding an alpha channel or not)
/// decodes the headers of the PNG bytes `data`.
pub uninterp spec fn png_headers_ok(data: Seq<u8>, add_alpha: bool) -> bool;

/// The width and height that such a decoder reports once it has decoded the headers.
pub uninterp spec fn png_dimensions(data: Seq<u8>, add_alpha: bool) -> Option<(usize, usize)>;

/// Whether such a decoder, once it has decoded the headers, decodes the pixels.
pub uninterp spec fn png_pixels_ok(data: Seq<u8>, add_alpha: bool) -> bool;

/// The decoded samples of those pixels when they are bytes (`None` for 16-bit samples).
pub uninterp spec fn png_samples(data: Seq<u8>, add_alpha: bool) -> Option<Seq<u8>>;

/// The samples of a vector of bytes, as a sequence.
pub open spec fn samples_view(v: Option<Vec<u8>>) -> Option<Seq<u8>> {
    match v {
        Some(b) => Some(b@),
        None => None,
    }
}

/// The image that the PNG bytes `data` decode to with command-line options that add an
/// alpha channel: its width, height and byte samples; `None` when decoding fails or the
/// samples are not bytes.
pub open spec fn png_decoded(data: Seq<u8>) -> Option<(usize, usize, Seq<u8>)> {
    if png_headers_ok(data, true) && png_pixels_ok(data, true) {
        match (png_dimensions(data, true), png_samples(data, true)) {
            (Some(d), Some(b)) => Some((d.0, d.1, b)),
            _ => None,
        }
    } else {
        None
    }
}

/// `DecoderOptions::new_cmd`: the command-line decoder options, which add no alpha
/// channel (zune-core's `cmd_options` leaves `png_add_alpha_channel` off).
#[verifier::external_body]
fn decoder_options_new_cmd() -> (r: PngOptions)
    ensures
        !r.add_alpha@,
{
    PngOptions { options: DecoderOptions::new_cmd(), add_alpha: Ghost(false) }
}

/// `DecoderOptions::png_set_add_alpha_channel`: the same options, set to add an alpha
/// channel to images that have none, or not, as `yes` says.
#[verifier::external_body]
fn decoder_options_add_alpha_channel(options: PngOptions, yes: bool) -> (r: PngOptions)
    ensures
        r.add_alpha@ == yes,
{
    PngOptions { options: options.options.png_set_add_alpha_channel(yes), add_alpha: Ghost(yes) }
}

/// `PngDecoder::new_with_options`: a fresh decoder of the PNG bytes `data` with the
/// given options.
#[verifier::external_body]
fn png_decoder_new<'a>(data: &'a [u8], options: PngOptions) -> (r: PngReader<'a>)
    ensures
        r.data@ == data@,
        r.add_alpha@ == options.add_alpha@,
        r.fresh@,
        !r.headers@,
{
    PngReader {
        decoder: PngDecoderBox { decoder: PngDecoder::new_with_options(data, options.options) },
        data: Ghost(data@),
        add_alpha: options.add_alpha,
        fresh: Ghost(true),
        headers: Ghost(false),
    }
}

/// `PngDecoder::decode_headers` on a fresh decoder: succeeds exactly when the headers
/// of its bytes decode, which is a function of the bytes and the options. The call
/// moves the decoder's stream, so it is made once per decoder: a second call would read
/// from another position. The source states no inputs on which the header parser might
/// panic, and nothing here states any.
#[verifier::external_body]
fn png_decode_headers(reader: &mut PngReader) -> (r: Result<(), PngDecodeErrors>)
    requires
        old(reader).fresh@,
    ensures
        r is Ok == png_headers_ok(old(reader).data@, old(reader).add_alpha@),
        final(reader).data == old(reader).data,
        final(reader).add_alpha == old(reader).add_alpha,
        !final(reader).fresh@,
        final(reader).headers@ == r is Ok,
{
    let r = reader.decoder.decoder.decode_headers();
    reader.fresh = Ghost(false);
    reader.headers = Ghost(r.is_ok());
    r
}

/// `PngDecoder::get_dimensions` once the headers are decoded: the width and height of
/// the image, a function of the bytes and the options.
#[verifier::external_body]
fn png_get_dimensions(reader: &PngReader) -> (r: Option<(usize, usize)>)
    requires
        reader.headers@,
    ensures
        r == png_dimensions(reader.data@, reader.add_alpha@),
{
    reader.decoder.decoder.get_dimensions()
}

/// `PngDecoder::decode`, made once, after the headers are decoded: succeeds exactly when
/// the pixels of its bytes decode, a function of the bytes and the options, and hands
/// out the decoded pixels with the bytes and option they come from. The source states
/// no inputs on which the pixel decoder (inflate, filtering, palette expansion) might
/// panic, and nothing here states any.
#[verifier::external_body]
fn png_decode(reader: &mut PngReader) -> (r: Result<PngPixels, PngDecodeErrors>)
    requires
        old(reader).headers@,
    ensures
        r is Ok == png_pixels_ok(old(reader).data@, old(reader).add_alpha@),
        r matches Ok(p) ==> p.data == old(reader).data && p.add_alpha == old(reader).add_alpha,
        final(reader).fresh == old(reader).fresh,
        !final(reader).headers@,
{
    reader.headers = Ghost(false);
    match reader.decoder.decoder.decode() {
        Ok(result) => Ok(PngPixels { result, data: reader.data, add_alpha: reader.add_alpha }),
        Err(e) => Err(e),
    }
}

/// `DecodingResult::u8`: the decoded samples when they are bytes, `None` otherwise.
#[verifier::external_body]
fn decoding_result_u8(pixels: PngPixels) -> (r: Option<Vec<u8>>)
    ensures
        samples_view(r) == png_samples(pixels.data@, pixels.add_alpha@),
{
    pixels.result.u8()
}

/// The index of the alpha byte of the pixel that byte `k` belongs to.
pub open spec fn alpha_index(k: int) -> int {
    k - k % 4 + 3
}

/// The bytes with each color channel premultiplied by its pixel's alpha
/// (`c * a / 255`, rounded down); a trailing partial pixel is left alone.
pub open spec fn alpha_multiplied(b: Seq<u8>) -> Seq<u8> {
    Seq::new(
        b.len(),
        |k: int|
            if k < b.len() / 4 * 4 && k % 4 < 3 {
                (b[k] * b[alpha_index(k)] / 255) as u8
            } else {
                b[k]
            },
    )
}

impl Pixmap {
    /// A pixmap of `width` x `height` pixels from decoded RGBA bytes, with each color
    /// channel premultiplied by its pixel's alpha.
    pub fn from_decoded(width: usize, height: usize, decoded: Vec<u8>) -> (r: Pixmap)
        ensures
            r.width == width,
            r.height == height,
            r.buf@ == alpha_multiplied(decoded@),
    {
        let mut decoded = decoded;
        let ghost d0 = decoded@;
        let n = decoded.len() / 4;
        let mut p: usize = 0;
        while p < n
            invariant
                d0.len() == decoded@.len(),
                n * 4 <= decoded.len(),
                n == d0.len() / 4,
                0 <= p <= n,
                forall|m: int| 0 <= m < p * 4 ==> #[trigger] decoded@[m] == alpha_multiplied(d0)[m],
                forall|m: int| p * 4 <= m < d0.len() ==> #[trigger] decoded@[m] == d0[m],
            decreases n - p,
        {
            assert(p * 4 + 4 <= n * 4) by (nonlinear_arith)
                requires p < n;
            let a = decoded[p * 4 + 3];
            let mut c: usize = 0;
            while c < 3
                invariant
                    d0.len() == decoded@.len(),
                    n * 4 <= decoded.len(),
                    n == d0.len() / 4,
                    0 <= p < n,
                    0 <= c <= 3,
                    a == d0[p * 4 + 3],
                    forall|m: int| 0 <= m < p * 4 + c ==> #[trigger] decoded@[m] == alpha_multiplied(d0)[m],
                    forall|m: int| p * 4 + c <= m < d0.len() ==> #[trigger] decoded@[m] == d0[m],
                decreases 3 - c,
            {
                assert(p * 4 + 4 <= n * 4) by (nonlinear_arith)
                    requires p < n;
                let k = p * 4 + c;
                proof {
                    assert(k as int % 4 == c && alpha_index(k as int) == p * 4 + 3) by (nonlinear_arith)
                        requires k == p * 4 + c, 0 <= c < 3, p >= 0;
                    assert(d0[k as int] * a <= 255 * 255) by (nonlinear_arith)
                        requires d0[k as int] <= 255, a <= 255;
                }
                decoded[k] = div_255(decoded[k] as u16 * a as u16) as u8;
                c += 1;
            }
            proof {
                assert((p * 4 + 3) % 4 == 3) by (nonlinear_arith)
                    requires p >= 0;
            }
            p += 1;
        }
        assert(decoded@ =~= alpha_multiplied(d0));
        Self { width, height, buf: decoded }
    }

    /// Decodes a PNG image into a pixmap of premultiplied RGBA bytes: the decoder adds an
    /// alpha channel to images without one, and each color channel is premultiplied by
    /// its pixel's alpha.
    ///
    /// Returns `None` when decoding fails, or when the samples are not bytes. Unlike the
    /// rest of this library, this function is not shown free of panics: it runs
    /// zune-png's header parser and pixel decoder, whose source states no inputs on
    /// which they are sure not to panic.
    pub fn from_png(data: &[u8]) -> (r: Option<Pixmap>)
        ensures
            r is Some <==> png_decoded(data@) is Some,
            r matches Some(p) ==> ({
                let d = png_decoded(data@)->0;
                &&& p.width == d.0
                &&& p.height == d.1
                &&& p.buf@ == alpha_multiplied(d.2)
            }),
    {
        let options = decoder_options_add_alpha_channel(decoder_options_new_cmd(), true);
        let mut decoder = png_decoder_new(data, options);
        if png_decode_headers(&mut decoder).is_err() {
            return None;
        }
        let dimensions = match png_get_dimensions(&decoder) {
            Some(d) => d,
            None => return None,
        };
        let decoded = match png_decode(&mut decoder) {
            Ok(pixels) => match decoding_result_u8(pixels) {
                Some(bytes) => bytes,
                None => return None,
            },
            Err(_) => return None,
        };
        Some(Self::from_decoded(dimensions.0, dimensions.1, decoded))
    }
}

} // verus!
