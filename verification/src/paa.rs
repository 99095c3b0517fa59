//! PAA textures, the game's icon format: the header of tags, palette and
//! first mipmap, and the conversion of that mipmap into a PNG image. The
//! LZO unpacking, the BC1/BC3 block decoding and the PNG encoding are done
//! by the `lzo`, `texpresso` and `image` crates.
use crate::marker_icons::MarkerIconError;
use crate::pbo::{le_u32_at, MAX_ENTRY_BYTES};
use image::ImageEncoder;
use vstd::prelude::*;

verus! {

/// Largest accepted texture width or height, in pixels.
pub const MAX_PAA_DIMENSION: usize = 1024;

/// Largest accepted tag payload, in bytes.
pub const MAX_TAG_BYTES: usize = 1_048_576;

/// Smallest PAA file worth reading.
pub const MIN_PAA_BYTES: usize = 16;

#[verifier::external_type_specification]
#[verifier::external_body]
pub struct ExLzoError(lzo::Error);

#[verifier::external_type_specification]
#[verifier::external_body]
pub struct ExImageError(image::ImageError);

/// What `lzo::decompress(src, max_len)` returns when it succeeds: the
/// LZO1X block `src` unpacked into at most `max_len` bytes.
pub uninterp spec fn lzo1x_decompressed(src: Seq<u8>, max_len: nat) -> Option<Seq<u8>>;

/// What `texpresso::Format::decompress` writes: the RGBA pixels, four
/// bytes each, row by row, of the `width` x `height` image whose BC3 (or,
/// without `bc3`, BC1) blocks are `blocks`.
pub uninterp spec fn bc_decoded(bc3: bool, blocks: Seq<u8>, width: nat, height: nat) -> Seq<u8>;

/// What `PngEncoder::write_image` writes for RGBA8 pixels, when it
/// succeeds.
pub uninterp spec fn png_rgba8_encoded(rgba: Seq<u8>, width: nat, height: nat) -> Option<Seq<u8>>;

/// `lzo::decompress`: unpacks an LZO1X block into at most `max_len` bytes.
/// The result, or the failure, is [`lzo1x_decompressed`] of the arguments.
#[verifier::external_body]
fn lzo_decompress(src: &[u8], max_len: usize) -> (r: Result<Vec<u8>, lzo::Error>)
    ensures
        r is Ok <==> lzo1x_decompressed(src@, max_len as nat) is Some,
        r matches Ok(out) ==> out@ == lzo1x_decompressed(src@, max_len as nat).unwrap(),
{
    lzo::decompress(src, max_len)
}

/// The block formats of the textures this module reads.
#[derive(Debug, Clone, Copy, PartialEq, Eq, Structural)]
pub enum PaaFormat {
    Bc1,
    Bc3,
}

/// Bytes of one 4x4 block.
pub open spec fn block_bytes(format: PaaFormat) -> nat {
    match format {
        PaaFormat::Bc1 => 8,
        PaaFormat::Bc3 => 16,
    }
}

/// Number of 4-pixel blocks that cover `n` pixels.
pub open spec fn blocks_for(n: int) -> int {
    (n + 3) / 4
}

/// `texpresso::Format::decompress`: decodes the blocks of a
/// `width` x `height` texture into `output`, four bytes per pixel. The
/// function indexes `blocks` and `output` as these sizes say, and panics if
/// they are shorter; every pixel of `output` is written, so what it held
/// before does not matter. The pixels are [`bc_decoded`] of the arguments.
#[verifier::external_body]
fn decompress_blocks(
    format: PaaFormat,
    blocks: &[u8],
    width: usize,
    height: usize,
    output: &mut Vec<u8>,
)
    requires
        width >= 1,
        height >= 1,
        blocks@.len() == blocks_for(width as int) * blocks_for(height as int) * block_bytes(format),
        old(output)@.len() == width * height * 4,
    ensures
        final(output)@.len() == old(output)@.len(),
        final(output)@ == bc_decoded(format == PaaFormat::Bc3, blocks@, width as nat, height as nat),
{
    let format = match format {
        PaaFormat::Bc1 => texpresso::Format::Bc1,
        PaaFormat::Bc3 => texpresso::Format::Bc3,
    };
    format.decompress(blocks, width, height, output.as_mut_slice());
}

/// `PngEncoder::write_image` with RGBA8 pixels, into a new buffer. It
/// panics unless the buffer holds four bytes per pixel. The image, or the
/// failure, is [`png_rgba8_encoded`] of the arguments. The encoder writes
/// the PNG signature and then the image header chunk (length 13, `IHDR`,
/// width and height big-endian) first, so the image opens with them.
#[verifier::external_body]
fn encode_png_rgba8(rgba: &[u8], width: u32, height: u32) -> (r: Result<Vec<u8>, image::ImageError>)
    requires
        rgba@.len() == width * height * 4,
    ensures
        r is Ok <==> png_rgba8_encoded(rgba@, width as nat, height as nat) is Some,
        r matches Ok(png) ==> png@ == png_rgba8_encoded(rgba@, width as nat, height as nat).unwrap(),
        r matches Ok(png) ==> png_of_size(png@, width as int, height as int),
{
    let mut png = Vec::new();
    match image::codecs::png::PngEncoder::new(&mut png).write_image(
        rgba,
        width,
        height,
        image::ExtendedColorType::Rgba8,
    ) {
        Ok(()) => Ok(png),
        Err(error) => Err(error),
    }
}

// ---------------------------------------------------------------------------
// Little-endian fields
// ---------------------------------------------------------------------------

/// The little-endian `u16` at `p`.
pub open spec fn le_u16_at(bytes: Seq<u8>, p: int) -> int {
    bytes[p] as int + bytes[p + 1] as int * 256
}

/// The little-endian 24-bit value at `p`.
pub open spec fn le_u24_at(bytes: Seq<u8>, p: int) -> int {
    bytes[p] as int + bytes[p + 1] as int * 256 + bytes[p + 2] as int * 65536
}

/// `read_u16`: the little-endian `u16` at `offset`, if two bytes are there.
pub fn read_u16(bytes: &[u8], offset: usize) -> (r: Result<u16, MarkerIconError>)
    ensures
        r matches Ok(v) ==> offset + 2 <= bytes@.len() && v == le_u16_at(bytes@, offset as int),
        r matches Err(e) ==> e == MarkerIconError::Unsupported && offset + 2 > bytes@.len(),
{
    if offset > bytes.len() || bytes.len() - offset < 2 {
        return Err(MarkerIconError::Unsupported);
    }
    Ok((bytes[offset] as u16) + (bytes[offset + 1] as u16) * 256)
}

/// `read_u32`: the little-endian `u32` at `offset`, if four bytes are there.
pub fn read_u32(bytes: &[u8], offset: usize) -> (r: Result<u32, MarkerIconError>)
    ensures
        r matches Ok(v) ==> offset + 4 <= bytes@.len() && v == le_u32_at(bytes@, offset as int),
        r matches Err(e) ==> e == MarkerIconError::Unsupported && offset + 4 > bytes@.len(),
{
    if offset > bytes.len() || bytes.len() - offset < 4 {
        return Err(MarkerIconError::Unsupported);
    }
    Ok((bytes[offset] as u32) + (bytes[offset + 1] as u32) * 256 + (bytes[offset + 2] as u32)
        * 65536 + (bytes[offset + 3] as u32) * 16777216)
}

/// `read_u24`: the little-endian 24-bit value at `offset`, if three bytes
/// are there.
pub fn read_u24(bytes: &[u8], offset: usize) -> (r: Result<usize, MarkerIconError>)
    ensures
        r matches Ok(v) ==> offset + 3 <= bytes@.len() && v == le_u24_at(bytes@, offset as int),
        r matches Err(e) ==> e == MarkerIconError::Unsupported && offset + 3 > bytes@.len(),
{
    if offset > bytes.len() || bytes.len() - offset < 3 {
        return Err(MarkerIconError::Unsupported);
    }
    Ok((bytes[offset] as usize) + (bytes[offset + 1] as usize) * 256 + (bytes[offset + 2] as usize)
        * 65536)
}

// ---------------------------------------------------------------------------
// The PAA header
// ---------------------------------------------------------------------------

/// The bytes `GGAT` that open a tag.
pub open spec fn tag_signature() -> Seq<u8> {
    seq![0x47u8, 0x47u8, 0x41u8, 0x54u8]
}

/// A tag opens at `cursor`.
pub open spec fn tag_at(bytes: Seq<u8>, cursor: int) -> bool {
    cursor + 4 <= bytes.len() && bytes.subrange(cursor, cursor + 4) == tag_signature()
}

/// The position after the tags that start at `cursor`. A tag is its
/// signature, four more name bytes, a little-endian `u32` length and that
/// many bytes; a tag longer than [`MAX_TAG_BYTES`] or one that runs past the
/// end is refused.
pub open spec fn skip_tags(bytes: Seq<u8>, cursor: int) -> Option<int>
    decreases bytes.len() - cursor,
{
    if tag_at(bytes, cursor) {
        let at_length = cursor + 8;
        if at_length + 4 > bytes.len() {
            None
        } else {
            let length = le_u32_at(bytes, at_length);
            let next = at_length + 4 + length;
            if length > MAX_TAG_BYTES || next > bytes.len() {
                None
            } else if cursor < next {
                skip_tags(bytes, next)
            } else {
                None
            }
        }
    } else {
        Some(cursor)
    }
}

/// Where the first mipmap of a texture lies and how it is stored.
#[derive(Debug, Clone, Copy, PartialEq, Eq)]
pub struct PaaLayout {
    pub format: PaaFormat,
    pub width: usize,
    pub height: usize,
    /// The mipmap data is LZO-packed.
    pub compressed: bool,
    pub data_start: usize,
    pub data_end: usize,
    /// Size of the unpacked blocks.
    pub expected: usize,
}

/// The header of a PAA file: a format tag (`0xff01` for BC1, `0xff05` for
/// BC3), tags, a palette, then the first mipmap: its width (whose top bit
/// marks LZO packing), height, 24-bit data size and data. The file must be
/// 16 bytes to [`MAX_ENTRY_BYTES`] long and the mipmap 1 to
/// [`MAX_PAA_DIMENSION`] pixels wide and high, with its data in the file.
pub open spec fn paa_layout_spec(bytes: Seq<u8>) -> Option<PaaLayout> {
    if bytes.len() < MIN_PAA_BYTES || bytes.len() > MAX_ENTRY_BYTES {
        None
    } else if le_u16_at(bytes, 0) != 0xff01 && le_u16_at(bytes, 0) != 0xff05 {
        None
    } else {
        let format = if le_u16_at(bytes, 0) == 0xff01 {
            PaaFormat::Bc1
        } else {
            PaaFormat::Bc3
        };
        match skip_tags(bytes, 2) {
            None => None,
            Some(cursor) => if cursor + 2 > bytes.len() {
                None
            } else {
                let mipmap = cursor + 2 + le_u16_at(bytes, cursor);
                if mipmap + 7 > bytes.len() {
                    None
                } else {
                    let raw_width = le_u16_at(bytes, mipmap);
                    let width = raw_width % 32768;
                    let height = le_u16_at(bytes, mipmap + 2);
                    let start = mipmap + 7;
                    let end = start + le_u24_at(bytes, mipmap + 4);
                    if width == 0 || height == 0 || width > MAX_PAA_DIMENSION || height
                        > MAX_PAA_DIMENSION || end > bytes.len() {
                        None
                    } else {
                        Some(
                            PaaLayout {
                                format,
                                width: width as usize,
                                height: height as usize,
                                compressed: raw_width >= 32768,
                                data_start: start as usize,
                                data_end: end as usize,
                                expected: (blocks_for(width) * blocks_for(height) * block_bytes(
                                    format,
                                )) as usize,
                            },
                        )
                    }
                }
            },
        }
    }
}

fn is_tag_at(bytes: &[u8], cursor: usize) -> (r: bool)
    ensures
        r == tag_at(bytes@, cursor as int),
{
    if cursor > bytes.len() || bytes.len() - cursor < 4 {
        return false;
    }
    let r = bytes[cursor] == 0x47 && bytes[cursor + 1] == 0x47 && bytes[cursor + 2] == 0x41
        && bytes[cursor + 3] == 0x54;
    proof {
        let window = bytes@.subrange(cursor as int, cursor + 4);
        if r {
            assert(window =~= tag_signature());
        } else {
            assert(window[0] != 0x47 || window[1] != 0x47 || window[2] != 0x41 || window[3]
                != 0x54);
        }
    }
    r
}

/// `decode_paa_to_png`, up to the mipmap data: the layout of a PAA file.
pub fn parse_paa(bytes: &[u8]) -> (r: Result<PaaLayout, MarkerIconError>)
    ensures
        r matches Ok(layout) ==> paa_layout_spec(bytes@) == Some(layout),
        r matches Err(e) ==> e == MarkerIconError::Unsupported && paa_layout_spec(bytes@) is None,
{
    let len = bytes.len();
    if len < MIN_PAA_BYTES || len > MAX_ENTRY_BYTES {
        return Err(MarkerIconError::Unsupported);
    }
    let tag = (bytes[0] as u16) + (bytes[1] as u16) * 256;
    let format = if tag == 0xff01 {
        PaaFormat::Bc1
    } else if tag == 0xff05 {
        PaaFormat::Bc3
    } else {
        return Err(MarkerIconError::Unsupported);
    };
    let mut cursor: usize = 2;
    while is_tag_at(bytes, cursor)
        invariant
            len == bytes@.len(),
            len <= MAX_ENTRY_BYTES,
            2 <= cursor <= len,
            skip_tags(bytes@, cursor as int) == skip_tags(bytes@, 2),
        decreases len - cursor,
    {
        let at_length = cursor + 8;
        let length = match read_u32(bytes, at_length) {
            Ok(length) => length as usize,
            Err(error) => return Err(error),
        };
        if length > MAX_TAG_BYTES {
            return Err(MarkerIconError::Unsupported);
        }
        let next = at_length + 4 + length;
        if next > len {
            return Err(MarkerIconError::Unsupported);
        }
        cursor = next;
    }
    let palette = match read_u16(bytes, cursor) {
        Ok(palette) => palette as usize,
        Err(error) => return Err(error),
    };
    let mipmap = cursor + 2 + palette;
    let raw_width = match read_u16(bytes, mipmap) {
        Ok(value) => value,
        Err(error) => return Err(error),
    };
    let height = match read_u16(bytes, mipmap + 2) {
        Ok(value) => value as usize,
        Err(error) => return Err(error),
    };
    let data_size = match read_u24(bytes, mipmap + 4) {
        Ok(value) => value,
        Err(error) => return Err(error),
    };
    let start = mipmap + 7;
    let width = (raw_width % 32768) as usize;
    if width == 0 || height == 0 || width > MAX_PAA_DIMENSION || height > MAX_PAA_DIMENSION {
        return Err(MarkerIconError::Unsupported);
    }
    let block = match format {
        PaaFormat::Bc1 => 8usize,
        PaaFormat::Bc3 => 16usize,
    };
    let columns = (width + 3) / 4;
    let rows = (height + 3) / 4;
    assert(columns * rows <= 65536) by (nonlinear_arith)
        requires
            columns <= 256,
            rows <= 256,
    ;
    let expected = columns * rows * block;
    let end = start + data_size;
    if end > len {
        return Err(MarkerIconError::Unsupported);
    }
    Ok(
        PaaLayout {
            format,
            width,
            height,
            compressed: raw_width >= 32768,
            data_start: start,
            data_end: end,
            expected,
        },
    )
}

/// Skipping tags never moves backwards.
pub proof fn lemma_skip_tags_forward(bytes: Seq<u8>, cursor: int)
    requires
        skip_tags(bytes, cursor) is Some,
    ensures
        skip_tags(bytes, cursor).unwrap() >= cursor,
    decreases bytes.len() - cursor,
{
    if tag_at(bytes, cursor) {
        let at_length = cursor + 8;
        let next = at_length + 4 + le_u32_at(bytes, at_length);
        lemma_skip_tags_forward(bytes, next);
    }
}

/// Law (every tag in a row is skipped): skipping tags from `cursor` stops
/// only where no tag opens, at or after `cursor`; a tag of length `n` that
/// opens at `cursor` and ends within the file (and within
/// [`MAX_TAG_BYTES`]) is stepped over whole, so skipping from `cursor`
/// finds what skipping from `cursor + 12 + n` finds; and where no tag opens,
/// nothing is skipped.
pub proof fn law_skip_tags_skips_every_tag(bytes: Seq<u8>, cursor: int)
    requires
        0 <= cursor,
    ensures
        skip_tags(bytes, cursor) matches Some(p) ==> p >= cursor && !tag_at(bytes, p),
        !tag_at(bytes, cursor) ==> skip_tags(bytes, cursor) == Some(cursor),
        tag_at(bytes, cursor) && cursor + 12 <= bytes.len() ==> {
            let n = le_u32_at(bytes, cursor + 8);
            n <= MAX_TAG_BYTES && cursor + 12 + n <= bytes.len() ==> skip_tags(bytes, cursor)
                == skip_tags(bytes, cursor + 12 + n)
        },
    decreases bytes.len() - cursor,
{
    if tag_at(bytes, cursor) {
        let at_length = cursor + 8;
        if at_length + 4 <= bytes.len() {
            let next = at_length + 4 + le_u32_at(bytes, at_length);
            if next <= bytes.len() && cursor < next {
                law_skip_tags_skips_every_tag(bytes, next);
            }
        }
    }
}

/// What a layout read from a file promises of its fields.
pub proof fn lemma_layout_bounds(bytes: Seq<u8>)
    requires
        paa_layout_spec(bytes) is Some,
    ensures
        ({
            let layout = paa_layout_spec(bytes).unwrap();
            &&& layout.data_start <= layout.data_end <= bytes.len()
            &&& 1 <= layout.width <= MAX_PAA_DIMENSION
            &&& 1 <= layout.height <= MAX_PAA_DIMENSION
            &&& layout.expected == blocks_for(layout.width as int) * blocks_for(
                layout.height as int,
            ) * block_bytes(layout.format)
        }),
{
    lemma_skip_tags_forward(bytes, 2);
    let cursor = skip_tags(bytes, 2).unwrap();
    let mipmap = cursor + 2 + le_u16_at(bytes, cursor);
    let width = le_u16_at(bytes, mipmap) % 32768;
    let height = le_u16_at(bytes, mipmap + 2);
    let format = paa_layout_spec(bytes).unwrap().format;
    assert(blocks_for(width) * blocks_for(height) <= 65536) by (nonlinear_arith)
        requires
            0 <= blocks_for(width) <= 256,
            0 <= blocks_for(height) <= 256,
    ;
    assert(0 <= blocks_for(width) * blocks_for(height)) by (nonlinear_arith)
        requires
            0 <= blocks_for(width),
            0 <= blocks_for(height),
    ;
    let product = blocks_for(width) * blocks_for(height);
    let e = product * block_bytes(format);
    assert(0 <= e <= 1048576) by (nonlinear_arith)
        requires
            0 <= product <= 65536,
            0 <= block_bytes(format) <= 16,
            e == product * block_bytes(format),
    ;
    let layout = paa_layout_spec(bytes).unwrap();
    assert(layout.expected == e as usize);
    assert(layout.width == width as usize);
    assert(layout.height == height as usize);
    assert(layout.format == format);
    assert(layout.width as int == width);
    assert(layout.height as int == height);
    assert(layout.expected as int == e);
    assert(layout.data_start <= layout.data_end);
    assert(layout.data_end <= bytes.len());
}

/// The unpacked blocks of a PAA file's first mipmap: its data, unpacked
/// with LZO when marked so, which must be exactly as long as the blocks of
/// the mipmap.
pub open spec fn paa_texture_spec(bytes: Seq<u8>, layout: PaaLayout) -> Option<Seq<u8>> {
    let stored = bytes.subrange(layout.data_start as int, layout.data_end as int);
    let texture = if layout.compressed {
        lzo1x_decompressed(stored, layout.expected as nat)
    } else {
        Some(stored)
    };
    match texture {
        Some(blocks) => if blocks.len() == layout.expected {
            Some(blocks)
        } else {
            None
        },
        None => None,
    }
}

/// The PNG image that a texture's blocks give.
pub open spec fn blocks_png_spec(layout: PaaLayout, blocks: Seq<u8>) -> Option<Seq<u8>> {
    png_rgba8_encoded(
        bc_decoded(layout.format == PaaFormat::Bc3, blocks, layout.width as nat, layout.height as nat),
        layout.width as nat,
        layout.height as nat,
    )
}

/// `decode_paa_to_png`: the PNG image of a PAA file's first mipmap.
pub open spec fn paa_png_spec(bytes: Seq<u8>) -> Option<Seq<u8>> {
    match paa_layout_spec(bytes) {
        None => None,
        Some(layout) => match paa_texture_spec(bytes, layout) {
            None => None,
            Some(blocks) => blocks_png_spec(layout, blocks),
        },
    }
}

/// The PNG image of a mipmap whose unpacked blocks are `blocks`; refused
/// unless `blocks` is exactly as long as the layout says.
pub fn blocks_to_png(layout: &PaaLayout, blocks: &[u8]) -> (r: Result<Vec<u8>, MarkerIconError>)
    requires
        1 <= layout.width <= MAX_PAA_DIMENSION,
        1 <= layout.height <= MAX_PAA_DIMENSION,
        layout.expected == blocks_for(layout.width as int) * blocks_for(layout.height as int)
            * block_bytes(layout.format),
    ensures
        blocks@.len() != layout.expected ==> r == Err::<Vec<u8>, MarkerIconError>(
            MarkerIconError::Unsupported,
        ),
        blocks@.len() == layout.expected ==> match blocks_png_spec(*layout, blocks@) {
            Some(png) => r matches Ok(out) && out@ == png,
            None => r == Err::<Vec<u8>, MarkerIconError>(MarkerIconError::Unsupported),
        },
        r matches Ok(png) ==> png_of_size(png@, layout.width as int, layout.height as int),
{
    if blocks.len() != layout.expected {
        return Err(MarkerIconError::Unsupported);
    }
    let width = layout.width;
    let height = layout.height;
    assert(width * height <= 1048576) by (nonlinear_arith)
        requires
            width <= 1024,
            height <= 1024,
    ;
    let pixel_bytes = width * height * 4;
    let mut rgba: Vec<u8> = vec![0u8; pixel_bytes];
    decompress_blocks(layout.format, blocks, width, height, &mut rgba);
    match encode_png_rgba8(rgba.as_slice(), width as u32, height as u32) {
        Ok(png) => Ok(png),
        Err(_) => Err(MarkerIconError::Unsupported),
    }
}

/// `decode_paa_to_png`: converts a PAA texture's first mipmap to a PNG
/// image.
pub fn decode_paa_to_png(bytes: &[u8]) -> (r: Result<Vec<u8>, MarkerIconError>)
    ensures
        r matches Ok(png) ==> paa_png_spec(bytes@) == Some(png@),
        r matches Err(e) ==> e == MarkerIconError::Unsupported && paa_png_spec(bytes@) is None,
        r matches Ok(png) ==> (paa_layout_spec(bytes@) matches Some(layout) && png_of_size(
            png@,
            layout.width as int,
            layout.height as int,
        )),
        r matches Ok(png) ==> is_valid_cached_png(png@),
{
    let layout = match parse_paa(bytes) {
        Ok(layout) => layout,
        Err(error) => return Err(error),
    };
    proof {
        lemma_layout_bounds(bytes@);
    }
    let stored = slice_range(bytes, layout.data_start, layout.data_end);
    if layout.compressed {
        match lzo_decompress(stored.as_slice(), layout.expected) {
            Ok(blocks) => blocks_to_png(&layout, blocks.as_slice()),
            Err(_) => Err(MarkerIconError::Unsupported),
        }
    } else {
        blocks_to_png(&layout, stored.as_slice())
    }
}

/// The bytes `bytes[from..to]`.
pub(crate) fn slice_range(bytes: &[u8], from: usize, to: usize) -> (r: Vec<u8>)
    requires
        from <= to <= bytes@.len(),
    ensures
        r@ == bytes@.subrange(from as int, to as int),
{
    let mut out: Vec<u8> = Vec::new();
    let mut i = from;
    while i < to
        invariant
            from <= i <= to <= bytes@.len(),
            out@ == bytes@.subrange(from as int, i as int),
        decreases to - i,
    {
        out.push(bytes[i]);
        proof {
            assert(out@ =~= bytes@.subrange(from as int, i + 1));
        }
        i = i + 1;
    }
    out
}

// ---------------------------------------------------------------------------
// PNG headers
// ---------------------------------------------------------------------------

/// The eight-byte PNG signature.
pub open spec fn png_signature() -> Seq<u8> {
    seq![137u8, 80u8, 78u8, 71u8, 13u8, 10u8, 26u8, 10u8]
}

/// The big-endian `u32` at `p`.
pub open spec fn be_u32_at(bytes: Seq<u8>, p: int) -> int {
    bytes[p] as int * 16777216 + bytes[p + 1] as int * 65536 + bytes[p + 2] as int * 256 + bytes[p
        + 3] as int
}

/// The bytes open with a PNG signature and an image header: at least 24
/// bytes, the signature first, the width at 16 and the height at 20.
pub open spec fn png_header(bytes: Seq<u8>) -> bool {
    bytes.len() >= 24 && bytes.subrange(0, 8) == png_signature()
}

/// A PNG image of `width` x `height` pixels, as its signature and image
/// header say.
pub open spec fn png_of_size(bytes: Seq<u8>, width: int, height: int) -> bool {
    &&& png_header(bytes)
    &&& be_u32_at(bytes, 16) == width
    &&& be_u32_at(bytes, 20) == height
}

/// Whether `bytes` open with the PNG signature, and, if they hold 24 bytes,
/// the width and height of the image header.
pub fn png_dimensions(bytes: &[u8]) -> (r: Option<(u32, u32)>)
    ensures
        r is Some <==> png_header(bytes@),
        r matches Some((width, height)) ==> width == be_u32_at(bytes@, 16) && height == be_u32_at(
            bytes@,
            20,
        ),
{
    if bytes.len() < 24 {
        return None;
    }
    let signature = bytes[0] == 137 && bytes[1] == 80 && bytes[2] == 78 && bytes[3] == 71
        && bytes[4] == 13 && bytes[5] == 10 && bytes[6] == 26 && bytes[7] == 10;
    proof {
        let head = bytes@.subrange(0, 8);
        if signature {
            assert(head =~= png_signature());
        } else {
            assert(head[0] != 137 || head[1] != 80 || head[2] != 78 || head[3] != 71 || head[4]
                != 13 || head[5] != 10 || head[6] != 26 || head[7] != 10);
        }
    }
    if !signature {
        return None;
    }
    let width = (bytes[16] as u32) * 16777216 + (bytes[17] as u32) * 65536 + (bytes[18] as u32)
        * 256 + (bytes[19] as u32);
    let height = (bytes[20] as u32) * 16777216 + (bytes[21] as u32) * 65536 + (bytes[22] as u32)
        * 256 + (bytes[23] as u32);
    Some((width, height))
}

/// A cached marker image: a PNG header of 1 to [`MAX_PAA_DIMENSION`]
/// pixels in each direction.
pub open spec fn is_valid_cached_png(bytes: Seq<u8>) -> bool {
    &&& png_header(bytes)
    &&& 0 < be_u32_at(bytes, 16) <= MAX_PAA_DIMENSION
    &&& 0 < be_u32_at(bytes, 20) <= MAX_PAA_DIMENSION
}

/// `valid_cached_png`: whether cached bytes can be served as a marker icon.
pub fn valid_cached_png(bytes: &[u8]) -> (r: bool)
    ensures
        r == is_valid_cached_png(bytes@),
{
    match png_dimensions(bytes) {
        Some((width, height)) => width > 0 && height > 0 && width <= MAX_PAA_DIMENSION as u32
            && height <= MAX_PAA_DIMENSION as u32,
        None => false,
    }
}

} // verus!
