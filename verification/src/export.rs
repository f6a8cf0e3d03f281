//! Encoding a produced image to PNG bytes while its identity rides along.
use vstd::prelude::*;
use vstd::string::StringExecFns;

use crate::artifact::Artifact;
use crate::dimensions::AspectRatio;

verus! {

/// A raw image: `height` rows of `width` RGBA pixels, row-major, four
/// bytes per pixel.
pub struct RawImage {
    pub width: u32,
    pub height: u32,
    pub pixels: Vec<u8>,
}

/// PNG encoding failed in the encoder.
#[derive(Clone, Copy, Debug, PartialEq, Eq, Structural)]
pub struct ExportError;

/// The PNG stream that encodes `height` rows of `width` RGBA pixels.  The
/// bytes depend on the arguments alone for one fixed build of the encoder
/// and of the compression library it links; another zlib build may emit a
/// different, equally valid stream.
pub uninterp spec fn png_of(width: u32, height: u32, pixels: Seq<u8>) -> Seq<u8>;

/// Relies on mtpng's encoder — `Header`, `Options`, `Encoder::write_header`,
/// `Encoder::write_image_rows` and `Encoder::finish` — to stream the pixel
/// rows into an in-memory PNG.  The encoder refuses only a zero dimension,
/// a buffer that is no whole number of rows, or missing rows at the end;
/// a well-formed buffer of `height` rows always encodes.
#[verifier::external_body]
fn encode_rgba_png(width: u32, height: u32, pixels: &Vec<u8>) -> (r: Result<Vec<u8>, ExportError>)
    ensures
        r matches Result::Ok(b) ==> b@ == png_of(width, height, pixels@),
        (width >= 1 && height >= 1 && pixels@.len() == 4 * width * height) ==> r is Ok,
{
    let encode = || -> Result<Vec<u8>, std::io::Error> {
        let mut header = mtpng::Header::new();
        header.set_size(width, height)?;
        header.set_color(mtpng::ColorType::TruecolorAlpha, 8)?;
        let options = mtpng::encoder::Options::new();
        let mut encoder = mtpng::encoder::Encoder::new(Vec::new(), &options);
        encoder.write_header(&header)?;
        encoder.write_image_rows(pixels)?;
        encoder.finish()
    };
    encode().map_err(|_| ExportError)
}

/// Encodes raw pixel artifacts to PNG byte artifacts in memory.
pub struct PNGExporter;

impl PNGExporter {
    /// Encode the artifact's pixels to PNG bytes.  The image must have the
    /// shape `RawImage` states — positive dimensions and exactly `height`
    /// rows of `width` four-byte pixels — and then encoding succeeds.  The
    /// identity fields are preserved; the image's own aspect ratio is
    /// recorded on the way.
    pub fn export(&self, artifact: Artifact<RawImage>) -> (r: Result<
        Artifact<Vec<u8>>,
        ExportError,
    >)
        requires
            artifact.data.width >= 1,
            artifact.data.height >= 1,
            artifact.data.pixels@.len() == 4 * artifact.data.width * artifact.data.height,
        ensures
            r is Ok,
            r matches Result::Ok(a) ==> {
                &&& a.deck == artifact.deck
                &&& a.shared == artifact.shared
                &&& a.side == artifact.side
                &&& a.content == artifact.content
                &&& a.amount == artifact.amount
                &&& a.data@ == png_of(
                    artifact.data.width,
                    artifact.data.height,
                    artifact.data.pixels@,
                )
                &&& a.aspect_ratio matches Option::Some(ar) && ar.num == artifact.data.width
                    && ar.den == artifact.data.height
                &&& a.extension matches Option::Some(ext) && ext@ == "png"@
            },
    {
        let (image, identity) = artifact.extract_data();
        let ratio = AspectRatio::new(image.width as u64, image.height as u64);
        match encode_rgba_png(image.width, image.height, &image.pixels) {
            Result::Ok(bytes) => {
                let mut out = identity.with_data(bytes);
                out.aspect_ratio = Option::Some(ratio);
                out.extension = Option::Some(String::from_str("png"));
                Result::Ok(out)
            },
            Result::Err(e) => Result::Err(e),
        }
    }
}

} // verus!
