use vstd::prelude::*;

use crate::paths::{
    extension_of, file_name_of, lower_of, lowercase, spec_extension, spec_file_name, str_equals,
};

verus! {

/// Dimensions, size and format of one image file.
#[derive(Debug, Clone, PartialEq, Eq)]
pub struct ImageMetadata {
    pub path: String,
    pub width: u32,
    pub height: u32,
    /// File size in bytes.
    pub size: u64,
    /// Lower-case format tag, such as `png` or `jpeg`.
    pub format: String,
}

/// Why metadata could not be had.
#[derive(Debug, Clone, Copy, PartialEq, Eq, Structural)]
pub enum MetadataError {
    /// The file could not be read.
    IoError,
    /// The format is unknown or the header cannot be parsed.
    DecodeError,
}

/// Formats whose dimensions are read from the header.
#[derive(Debug, Clone, Copy, PartialEq, Eq, Structural)]
pub enum RasterFormat {
    Png,
    Gif,
    Bmp,
    Jpeg,
    Webp,
}

/// Format and dimensions read from a file's leading bytes.
#[derive(Debug, Clone, Copy, PartialEq, Eq, Structural)]
pub struct ImageHeader {
    pub format: RasterFormat,
    pub width: u32,
    pub height: u32,
}

/// Big-endian 16-bit value at `i`.
pub open spec fn be16(b: Seq<u8>, i: int) -> nat {
    (b[i] as nat) * 256 + (b[i + 1] as nat)
}

/// Big-endian 32-bit value at `i`.
pub open spec fn be32(b: Seq<u8>, i: int) -> nat {
    (b[i] as nat) * 16777216 + (b[i + 1] as nat) * 65536 + (b[i + 2] as nat) * 256 + (b[i + 3] as nat)
}

/// Little-endian 16-bit value at `i`.
pub open spec fn le16(b: Seq<u8>, i: int) -> nat {
    (b[i] as nat) + (b[i + 1] as nat) * 256
}

/// Little-endian 32-bit value at `i`.
pub open spec fn le32(b: Seq<u8>, i: int) -> nat {
    (b[i] as nat) + (b[i + 1] as nat) * 256 + (b[i + 2] as nat) * 65536 + (b[i + 3] as nat) * 16777216
}

/// `b` holds `m` at offset `i`.
pub open spec fn holds_at(b: Seq<u8>, i: int, m: Seq<u8>) -> bool {
    0 <= i && i + m.len() <= b.len() && b.subrange(i, i + m.len()) == m
}

/// PNG: the signature, then the IHDR chunk with width and height.
pub open spec fn png_header(b: Seq<u8>) -> Option<ImageHeader> {
    if b.len() >= 24 && holds_at(b, 0, seq![0x89u8, 0x50, 0x4e, 0x47, 0x0d, 0x0a, 0x1a, 0x0a])
        && holds_at(b, 12, seq![0x49u8, 0x48, 0x44, 0x52]) {
        Some(ImageHeader { format: RasterFormat::Png, width: be32(b, 16) as u32, height: be32(b, 20) as u32 })
    } else {
        None
    }
}

/// GIF: `GIF87a` or `GIF89a`, then the logical screen width and height.
pub open spec fn gif_header(b: Seq<u8>) -> Option<ImageHeader> {
    if b.len() >= 10 && holds_at(b, 0, seq![0x47u8, 0x49, 0x46, 0x38]) && (b[4] == 0x37u8 || b[4]
        == 0x39u8) && b[5] == 0x61u8 {
        Some(ImageHeader { format: RasterFormat::Gif, width: le16(b, 6) as u32, height: le16(b, 8) as u32 })
    } else {
        None
    }
}

/// The magnitude of a little-endian two's-complement 32-bit value.
pub open spec fn abs32(v: nat) -> nat {
    if v >= 0x8000_0000 {
        (0x1_0000_0000 - v) as nat
    } else {
        v
    }
}

/// BMP: `BM`, then a BITMAPINFOHEADER or later whose width and height are
/// signed; a negative height marks a top-down image.
pub open spec fn bmp_header(b: Seq<u8>) -> Option<ImageHeader> {
    if b.len() >= 26 && b[0] == 0x42u8 && b[1] == 0x4du8 && le32(b, 14) >= 40 {
        Some(
            ImageHeader {
                format: RasterFormat::Bmp,
                width: abs32(le32(b, 18)) as u32,
                height: abs32(le32(b, 22)) as u32,
            },
        )
    } else {
        None
    }
}

/// A start-of-frame marker: C0 to CF but for C4 (DHT), C8 (JPG) and CC (DAC).
pub open spec fn is_sof(m: u8) -> bool {
    0xc0 <= m <= 0xcf && m != 0xc4 && m != 0xc8 && m != 0xcc
}

/// JPEG segments from offset `i`: each is `FF`, a marker and a big-endian
/// length that counts itself; the first start-of-frame segment holds the
/// height and then the width.
pub open spec fn jpeg_segments(b: Seq<u8>, i: int) -> Option<ImageHeader>
    decreases b.len() - i,
{
    if i < 0 || i + 4 > b.len() || b[i] != 0xffu8 {
        None
    } else if is_sof(b[i + 1]) {
        if i + 9 <= b.len() {
            Some(
                ImageHeader {
                    format: RasterFormat::Jpeg,
                    width: be16(b, i + 7) as u32,
                    height: be16(b, i + 5) as u32,
                },
            )
        } else {
            None
        }
    } else if be16(b, i + 2) < 2 || i + 2 + be16(b, i + 2) > b.len() {
        None
    } else {
        jpeg_segments(b, i + 2 + be16(b, i + 2))
    }
}

/// JPEG: the start-of-image marker, then segments up to a frame header.
pub open spec fn jpeg_header(b: Seq<u8>) -> Option<ImageHeader> {
    if b.len() >= 2 && b[0] == 0xffu8 && b[1] == 0xd8u8 {
        jpeg_segments(b, 2)
    } else {
        None
    }
}

/// Little-endian 24-bit value at `i`.
pub open spec fn le24(b: Seq<u8>, i: int) -> nat {
    (b[i] as nat) + (b[i + 1] as nat) * 256 + (b[i + 2] as nat) * 65536
}

/// WebP: a RIFF container of type `WEBP` whose first chunk is `VP8X`
/// (extended: 24-bit canvas size less one), `VP8L` (lossless: 14-bit sizes
/// less one after the 0x2f signature) or `VP8 ` (lossy: 14-bit sizes after
/// the frame start code 9d 01 2a).
pub open spec fn webp_header(b: Seq<u8>) -> Option<ImageHeader> {
    if b.len() >= 30 && holds_at(b, 0, seq![0x52u8, 0x49, 0x46, 0x46]) && holds_at(
        b,
        8,
        seq![0x57u8, 0x45, 0x42, 0x50],
    ) && holds_at(b, 12, seq![0x56u8, 0x50, 0x38]) {
        if b[15] == 0x58u8 {
            Some(
                ImageHeader {
                    format: RasterFormat::Webp,
                    width: (le24(b, 24) + 1) as u32,
                    height: (le24(b, 27) + 1) as u32,
                },
            )
        } else if b[15] == 0x4cu8 && b[20] == 0x2fu8 {
            Some(
                ImageHeader {
                    format: RasterFormat::Webp,
                    width: (le32(b, 21) % 16384 + 1) as u32,
                    height: ((le32(b, 21) / 16384) % 16384 + 1) as u32,
                },
            )
        } else if b[15] == 0x20u8 && b[23] == 0x9du8 && b[24] == 0x01u8 && b[25] == 0x2au8 {
            Some(
                ImageHeader {
                    format: RasterFormat::Webp,
                    width: (le16(b, 26) % 16384) as u32,
                    height: (le16(b, 28) % 16384) as u32,
                },
            )
        } else {
            None
        }
    } else {
        None
    }
}

/// The header that a file's leading bytes give, trying each format in turn.
pub open spec fn header_of(b: Seq<u8>) -> Option<ImageHeader> {
    if png_header(b) is Some {
        png_header(b)
    } else if gif_header(b) is Some {
        gif_header(b)
    } else if bmp_header(b) is Some {
        bmp_header(b)
    } else if webp_header(b) is Some {
        webp_header(b)
    } else {
        jpeg_header(b)
    }
}

/// The lower-case tag of a format.
pub open spec fn format_tag(f: RasterFormat) -> Seq<char> {
    match f {
        RasterFormat::Png => seq!['p', 'n', 'g'],
        RasterFormat::Gif => seq!['g', 'i', 'f'],
        RasterFormat::Bmp => seq!['b', 'm', 'p'],
        RasterFormat::Jpeg => seq!['j', 'p', 'e', 'g'],
        RasterFormat::Webp => seq!['w', 'e', 'b', 'p'],
    }
}

/// A path names a vector image when its extension is `svg`, in any case.
pub open spec fn is_vector_path(p: Seq<char>) -> bool {
    match spec_file_name(p) {
        Some(n) => match spec_extension(n) {
            Some(e) => lower_of(e) == seq!['s', 'v', 'g'],
            None => false,
        },
        None => false,
    }
}

proof fn lemma_holds_at(b: Seq<u8>, i: int, m: Seq<u8>)
    requires
        0 <= i,
        i + m.len() <= b.len(),
    ensures
        holds_at(b, i, m) <==> forall|k: int| 0 <= k < m.len() ==> b[i + k] == #[trigger] m[k],
{
    if forall|k: int| 0 <= k < m.len() ==> b[i + k] == #[trigger] m[k] {
        assert(b.subrange(i, i + m.len()) =~= m);
    }
    if holds_at(b, i, m) {
        assert forall|k: int| 0 <= k < m.len() implies b[i + k] == #[trigger] m[k] by {
            assert(b.subrange(i, i + m.len())[k] == b[i + k]);
        }
    }
}

fn read_be16(b: &[u8], i: usize) -> (r: u32)
    requires
        i + 2 <= b@.len(),
    ensures
        r as nat == be16(b@, i as int),
        r <= 0xffff,
{
    (b[i] as u32) * 256 + (b[i + 1] as u32)
}

fn read_le16(b: &[u8], i: usize) -> (r: u32)
    requires
        i + 2 <= b@.len(),
    ensures
        r as nat == le16(b@, i as int),
{
    (b[i] as u32) + (b[i + 1] as u32) * 256
}

fn read_be32(b: &[u8], i: usize) -> (r: u32)
    requires
        i + 4 <= b@.len(),
    ensures
        r as nat == be32(b@, i as int),
{
    let x0 = b[i] as u32;
    let x1 = b[i + 1] as u32;
    let x2 = b[i + 2] as u32;
    let x3 = b[i + 3] as u32;
    assert(x0 * 16777216 + x1 * 65536 + x2 * 256 + x3 <= 0xffff_ffff) by (nonlinear_arith)
        requires
            x0 <= 255,
            x1 <= 255,
            x2 <= 255,
            x3 <= 255,
    ;
    x0 * 16777216 + x1 * 65536 + x2 * 256 + x3
}

fn read_le32(b: &[u8], i: usize) -> (r: u32)
    requires
        i + 4 <= b@.len(),
    ensures
        r as nat == le32(b@, i as int),
{
    let x0 = b[i] as u32;
    let x1 = b[i + 1] as u32;
    let x2 = b[i + 2] as u32;
    let x3 = b[i + 3] as u32;
    assert(x0 + x1 * 256 + x2 * 65536 + x3 * 16777216 <= 0xffff_ffff) by (nonlinear_arith)
        requires
            x0 <= 255,
            x1 <= 255,
            x2 <= 255,
            x3 <= 255,
    ;
    x0 + x1 * 256 + x2 * 65536 + x3 * 16777216
}

fn abs_i32_bits(v: u32) -> (r: u32)
    ensures
        r as nat == abs32(v as nat),
{
    if v >= 0x8000_0000 {
        if v == 0x8000_0000 {
            0x8000_0000
        } else {
            ((0xffff_ffffu32 - v) + 1) as u32
        }
    } else {
        v
    }
}

fn parse_png(b: &[u8]) -> (r: Option<ImageHeader>)
    ensures
        r == png_header(b@),
{
    let ghost sig = seq![0x89u8, 0x50, 0x4e, 0x47, 0x0d, 0x0a, 0x1a, 0x0a];
    let ghost ihdr = seq![0x49u8, 0x48, 0x44, 0x52];
    if b.len() < 24 {
        return None;
    }
    proof {
        lemma_holds_at(b@, 0, sig);
        lemma_holds_at(b@, 12, ihdr);
    }
    if b[0] == 0x89 && b[1] == 0x50 && b[2] == 0x4e && b[3] == 0x47 && b[4] == 0x0d && b[5] == 0x0a
        && b[6] == 0x1a && b[7] == 0x0a && b[12] == 0x49 && b[13] == 0x48 && b[14] == 0x44 && b[15]
        == 0x52 {
        assert(holds_at(b@, 0, sig)) by {
            assert forall|k: int| 0 <= k < sig.len() implies b@[0 + k] == #[trigger] sig[k] by {
                assert(b@[0 + k] == b@[k]);
            }
        }
        assert(holds_at(b@, 12, ihdr)) by {
            assert forall|k: int| 0 <= k < ihdr.len() implies b@[12 + k] == #[trigger] ihdr[k] by {
                if k == 0 {
                } else if k == 1 {
                } else if k == 2 {
                } else {
                }
            }
        }
        Some(ImageHeader { format: RasterFormat::Png, width: read_be32(b, 16), height: read_be32(b, 20) })
    } else {
        proof {
            if holds_at(b@, 0, sig) && holds_at(b@, 12, ihdr) {
                assert(sig[0int] == 0x89u8 && sig[1int] == 0x50u8 && sig[2int] == 0x4eu8 && sig[3int] == 0x47u8);
                assert(sig[4int] == 0x0du8 && sig[5int] == 0x0au8 && sig[6int] == 0x1au8 && sig[7int] == 0x0au8);
                assert(ihdr[0int] == 0x49u8 && ihdr[1int] == 0x48u8 && ihdr[2int] == 0x44u8 && ihdr[3int] == 0x52u8);
            }
        }
        None
    }
}

fn parse_gif(b: &[u8]) -> (r: Option<ImageHeader>)
    ensures
        r == gif_header(b@),
{
    let ghost magic = seq![0x47u8, 0x49, 0x46, 0x38];
    if b.len() < 10 {
        return None;
    }
    proof {
        lemma_holds_at(b@, 0, magic);
    }
    if b[0] == 0x47 && b[1] == 0x49 && b[2] == 0x46 && b[3] == 0x38 && (b[4] == 0x37 || b[4] == 0x39)
        && b[5] == 0x61 {
        assert(holds_at(b@, 0, magic)) by {
            assert forall|k: int| 0 <= k < magic.len() implies b@[0 + k] == #[trigger] magic[k] by {
                assert(b@[0 + k] == b@[k]);
            }
        }
        Some(ImageHeader { format: RasterFormat::Gif, width: read_le16(b, 6), height: read_le16(b, 8) })
    } else {
        proof {
            if holds_at(b@, 0, magic) {
                assert(magic[0int] == 0x47u8 && magic[1int] == 0x49u8 && magic[2int] == 0x46u8 && magic[3int] == 0x38u8);
            }
        }
        None
    }
}

fn parse_bmp(b: &[u8]) -> (r: Option<ImageHeader>)
    ensures
        r == bmp_header(b@),
{
    if b.len() < 26 || b[0] != 0x42 || b[1] != 0x4d || read_le32(b, 14) < 40 {
        return None;
    }
    let w = abs_i32_bits(read_le32(b, 18));
    let h = abs_i32_bits(read_le32(b, 22));
    Some(ImageHeader { format: RasterFormat::Bmp, width: w, height: h })
}

fn read_le24(b: &[u8], i: usize) -> (r: u32)
    requires
        i + 3 <= b@.len(),
    ensures
        r as nat == le24(b@, i as int),
        r < 0x100_0000,
{
    (b[i] as u32) + (b[i + 1] as u32) * 256 + (b[i + 2] as u32) * 65536
}

fn parse_webp(b: &[u8]) -> (r: Option<ImageHeader>)
    ensures
        r == webp_header(b@),
{
    let ghost riff = seq![0x52u8, 0x49, 0x46, 0x46];
    let ghost webp = seq![0x57u8, 0x45, 0x42, 0x50];
    let ghost vp8 = seq![0x56u8, 0x50, 0x38];
    if b.len() < 30 {
        return None;
    }
    proof {
        lemma_holds_at(b@, 0, riff);
        lemma_holds_at(b@, 8, webp);
        lemma_holds_at(b@, 12, vp8);
        assert(riff[0int] == 0x52u8 && riff[1int] == 0x49u8 && riff[2int] == 0x46u8 && riff[3int] == 0x46u8);
        assert(webp[0int] == 0x57u8 && webp[1int] == 0x45u8 && webp[2int] == 0x42u8 && webp[3int] == 0x50u8);
        assert(vp8[0int] == 0x56u8 && vp8[1int] == 0x50u8 && vp8[2int] == 0x38u8);
    }
    if !(b[0] == 0x52 && b[1] == 0x49 && b[2] == 0x46 && b[3] == 0x46 && b[8] == 0x57 && b[9] == 0x45
        && b[10] == 0x42 && b[11] == 0x50 && b[12] == 0x56 && b[13] == 0x50 && b[14] == 0x38) {
        return None;
    }
    assert(holds_at(b@, 0, riff) && holds_at(b@, 8, webp) && holds_at(b@, 12, vp8));
    if b[15] == 0x58 {
        let w = read_le24(b, 24) + 1;
        let h = read_le24(b, 27) + 1;
        Some(ImageHeader { format: RasterFormat::Webp, width: w, height: h })
    } else if b[15] == 0x4c && b[20] == 0x2f {
        let bits = read_le32(b, 21);
        Some(
            ImageHeader {
                format: RasterFormat::Webp,
                width: bits % 16384 + 1,
                height: (bits / 16384) % 16384 + 1,
            },
        )
    } else if b[15] == 0x20 && b[23] == 0x9d && b[24] == 0x01 && b[25] == 0x2a {
        Some(
            ImageHeader {
                format: RasterFormat::Webp,
                width: read_le16(b, 26) % 16384,
                height: read_le16(b, 28) % 16384,
            },
        )
    } else {
        None
    }
}

fn parse_jpeg(b: &[u8]) -> (r: Option<ImageHeader>)
    ensures
        r == jpeg_header(b@),
{
    if b.len() < 2 || b[0] != 0xff || b[1] != 0xd8 {
        return None;
    }
    let mut i: usize = 2;
    loop
        invariant
            2 <= i <= b@.len(),
            jpeg_header(b@) == jpeg_segments(b@, i as int),
        decreases b@.len() - i,
    {
        if b.len() - i < 4 || b[i] != 0xff {
            return None;
        }
        let marker = b[i + 1];
        if 0xc0 <= marker && marker <= 0xcf && marker != 0xc4 && marker != 0xc8 && marker != 0xcc {
            if b.len() - i < 9 {
                return None;
            }
            return Some(
                ImageHeader {
                    format: RasterFormat::Jpeg,
                    width: read_be16(b, i + 7),
                    height: read_be16(b, i + 5),
                },
            );
        }
        let seg = read_be16(b, i + 2) as usize;
        if seg < 2 {
            return None;
        }
        if seg + 2 > b.len() - i {
            return None;
        }
        i = i + 2 + seg;
    }
}

/// Reads the format and dimensions from a file's leading bytes: PNG, GIF,
/// BMP, WebP or JPEG, tried in that order. `None` where none of them parses.
pub fn read_header(b: &[u8]) -> (r: Option<ImageHeader>)
    ensures
        r == header_of(b@),
{
    if let Some(h) = parse_png(b) {
        return Some(h);
    }
    if let Some(h) = parse_gif(b) {
        return Some(h);
    }
    if let Some(h) = parse_bmp(b) {
        return Some(h);
    }
    if let Some(h) = parse_webp(b) {
        return Some(h);
    }
    parse_jpeg(b)
}

fn format_name(f: RasterFormat) -> (r: String)
    ensures
        r@ == format_tag(f),
{
    proof {
        reveal_strlit("png");
        reveal_strlit("gif");
        reveal_strlit("bmp");
        reveal_strlit("jpeg");
        reveal_strlit("webp");
    }
    let s = match f {
        RasterFormat::Png => "png",
        RasterFormat::Gif => "gif",
        RasterFormat::Bmp => "bmp",
        RasterFormat::Jpeg => "jpeg",
        RasterFormat::Webp => "webp",
    };
    assert(s@ =~= format_tag(f));
    s.to_owned()
}

/// Whether a path names a vector image, whose dimensions are left to the
/// display layer.
pub fn is_vector_image(path: &str) -> (r: bool)
    ensures
        r == is_vector_path(path@),
{
    let name = match file_name_of(path) {
        Some(n) => n,
        None => return false,
    };
    match extension_of(name) {
        Some(ext) => {
            let lower = lowercase(ext);
            proof {
                reveal_strlit("svg");
                assert("svg"@ =~= seq!['s', 'v', 'g']);
            }
            str_equals(lower.as_str(), "svg")
        },
        None => false,
    }
}

/// Metadata of the image at `path`, given its size in bytes (`None` where the
/// file could not be read) and its leading bytes. Vector images are reported
/// with zero dimensions and format `svg` without looking at their bytes;
/// other formats take format and dimensions from the header.
pub fn extract_metadata(path: &str, size: Option<u64>, leading: &[u8]) -> (r: Result<
    ImageMetadata,
    MetadataError,
>)
    ensures
        size is None ==> r == Err::<ImageMetadata, MetadataError>(MetadataError::IoError),
        size is Some && is_vector_path(path@) ==> (r matches Ok(m) && m.path@ == path@ && m.width
            == 0 && m.height == 0 && m.size == size->Some_0 && m.format@ == seq!['s', 'v', 'g']),
        size is Some && !is_vector_path(path@) && header_of(leading@) is None ==> r == Err::<
            ImageMetadata,
            MetadataError,
        >(MetadataError::DecodeError),
        size is Some && !is_vector_path(path@) && header_of(leading@) is Some ==> (r matches Ok(m)
            && m.path@ == path@ && m.width == header_of(leading@)->Some_0.width && m.height
            == header_of(leading@)->Some_0.height && m.size == size->Some_0 && m.format@
            == format_tag(header_of(leading@)->Some_0.format)),
{
    let n = match size {
        Some(n) => n,
        None => return Err(MetadataError::IoError),
    };
    if is_vector_image(path) {
        proof {
            reveal_strlit("svg");
        }
        let format = "svg".to_owned();
        assert(format@ =~= seq!['s', 'v', 'g']);
        return Ok(ImageMetadata { path: path.to_owned(), width: 0, height: 0, size: n, format });
    }
    match read_header(leading) {
        Some(h) => Ok(
            ImageMetadata {
                path: path.to_owned(),
                width: h.width,
                height: h.height,
                size: n,
                format: format_name(h.format),
            },
        ),
        None => Err(MetadataError::DecodeError),
    }
}

/// Any file that starts with the PNG signature and an IHDR chunk reads as a
/// PNG of the width and height that IHDR gives.
pub proof fn lemma_png_dimensions(b: Seq<u8>)
    requires
        b.len() >= 24,
        holds_at(b, 0, seq![0x89u8, 0x50, 0x4e, 0x47, 0x0d, 0x0a, 0x1a, 0x0a]),
        holds_at(b, 12, seq![0x49u8, 0x48, 0x44, 0x52]),
    ensures
        header_of(b) == Some(
            ImageHeader {
                format: RasterFormat::Png,
                width: be32(b, 16) as u32,
                height: be32(b, 20) as u32,
            },
        ),
        format_tag(header_of(b)->Some_0.format) == seq!['p', 'n', 'g'],
{
}

} // verus!
