//! The sprite image format: a fixed header, an RGB palette, a frame
//! directory, and per-frame rasters stored as sparse runs of
//! (count, alpha) pairs over row-major pixels.
//!
//! The codec works on a byte buffer (typically an archive payload) and
//! reconstructs, for every frame, two parallel arrays of palette
//! indices and alpha values, each of length `width * height`.

use vstd::prelude::*;

use crate::bytes::{le16_at, le32_at, le_i16_at, read_i16_at, read_u16_at, read_u32_at};

verus! {

/// Why a sprite buffer is rejected: the three signature bytes are not
/// "SPR", or the header, palette, directory or frame data is cut short.
#[derive(Debug, Clone, Copy, PartialEq, Eq, Structural)]
pub enum SpriteFormatError {
    BadSignature,
    Truncated,
}

/// The fixed-size sprite header: a 4-byte signature, eight u16 fields
/// and six reserved u16 values, all little-endian. Width and height
/// are a nominal bounding box; frames carry their own sizes.
#[derive(Debug, Clone, PartialEq, Eq)]
pub struct SprHeader {
    pub signature: [u8; 4],
    pub width: u16,
    pub height: u16,
    pub center_x: u16,
    pub center_y: u16,
    pub frames: u16,
    pub colors: u16,
    pub directions: u16,
    pub interval: u16,
    pub reserved: [u16; 6],
}

/// The mathematical view of a header: the same fields with sequences
/// in place of arrays.
pub struct SprHeaderV {
    pub signature: Seq<u8>,
    pub width: u16,
    pub height: u16,
    pub center_x: u16,
    pub center_y: u16,
    pub frames: u16,
    pub colors: u16,
    pub directions: u16,
    pub interval: u16,
    pub reserved: Seq<u16>,
}

impl View for SprHeader {
    type V = SprHeaderV;

    open spec fn view(&self) -> SprHeaderV {
        SprHeaderV {
            signature: self.signature@,
            width: self.width,
            height: self.height,
            center_x: self.center_x,
            center_y: self.center_y,
            frames: self.frames,
            colors: self.colors,
            directions: self.directions,
            interval: self.interval,
            reserved: self.reserved@,
        }
    }
}

/// One palette entry: an RGB triple. Alpha is stored per pixel, not
/// per palette entry.
#[derive(Debug, Clone, Copy, PartialEq, Eq, Structural)]
pub struct SprColor {
    pub r: u8,
    pub g: u8,
    pub b: u8,
}

/// One decoded frame: its own size, the signed anchor offset that
/// aligns it to the sprite's pivot, and the two row-major rasters.
/// A pixel with alpha 0 is fully transparent whatever its index.
#[derive(Debug, Clone, PartialEq, Eq)]
pub struct SprFrameInfo {
    pub width: u16,
    pub height: u16,
    pub offset_x: i16,
    pub offset_y: i16,
    pub decoded_indices: Vec<u8>,
    pub alpha_map: Vec<u8>,
}

/// The mathematical view of a frame.
pub struct SprFrameV {
    pub width: u16,
    pub height: u16,
    pub offset_x: i16,
    pub offset_y: i16,
    pub indices: Seq<u8>,
    pub alphas: Seq<u8>,
}

impl View for SprFrameInfo {
    type V = SprFrameV;

    open spec fn view(&self) -> SprFrameV {
        SprFrameV {
            width: self.width,
            height: self.height,
            offset_x: self.offset_x,
            offset_y: self.offset_y,
            indices: self.decoded_indices@,
            alphas: self.alpha_map@,
        }
    }
}

/// A fully decoded sprite: header, palette and frames. Immutable once
/// built.
#[derive(Debug, Clone, PartialEq, Eq)]
pub struct SprFile {
    pub header: SprHeader,
    pub palette: Vec<SprColor>,
    pub frames: Vec<SprFrameInfo>,
}

/// The mathematical view of a decoded sprite.
pub struct SprFileV {
    pub header: SprHeaderV,
    pub palette: Seq<SprColor>,
    pub frames: Seq<SprFrameV>,
}

impl View for SprFile {
    type V = SprFileV;

    open spec fn view(&self) -> SprFileV {
        SprFileV {
            header: self.header@,
            palette: self.palette@,
            frames: self.frames@.map_values(|f: SprFrameInfo| f@),
        }
    }
}

/// The header a well-formed 32-byte prefix denotes.
pub open spec fn spec_header(buf: Seq<u8>) -> SprHeaderV {
    SprHeaderV {
        signature: buf.subrange(0, 4),
        width: le16_at(buf, 4),
        height: le16_at(buf, 6),
        center_x: le16_at(buf, 8),
        center_y: le16_at(buf, 10),
        frames: le16_at(buf, 12),
        colors: le16_at(buf, 14),
        directions: le16_at(buf, 16),
        interval: le16_at(buf, 18),
        reserved: Seq::new(6, |i: int| le16_at(buf, 20 + 2 * i)),
    }
}

/// The palette stored after the header: `colors` RGB triples.
pub open spec fn spec_palette(buf: Seq<u8>, colors: int) -> Seq<SprColor> {
    Seq::new(
        colors as nat,
        |i: int|
            SprColor { r: buf[32 + 3 * i], g: buf[32 + 3 * i + 1], b: buf[32 + 3 * i + 2] },
    )
}

/// An index raster with one run written into it: positions `filled`
/// up to `filled + take` get the index bytes at `srcpos`.
pub open spec fn fill_run(idx: Seq<u8>, filled: int, take: int, buf: Seq<u8>, srcpos: int) -> Seq<
    u8,
> {
    Seq::new(
        idx.len(),
        |j: int|
            if filled <= j < filled + take {
                buf[srcpos + (j - filled)]
            } else {
                idx[j]
            },
    )
}

/// An alpha raster with one run written into it: positions `filled`
/// up to `filled + take` all get `alpha`.
pub open spec fn fill_alpha(al: Seq<u8>, filled: int, take: int, alpha: u8) -> Seq<u8> {
    Seq::new(
        al.len(),
        |j: int|
            if filled <= j < filled + take {
                alpha
            } else {
                al[j]
            },
    )
}

/// The run-length decode of one frame's pixel stream: reads
/// (count, alpha) pairs at `pos`; an opaque run copies index bytes,
/// truncated at the pixel budget, while a transparent run skips pixels
/// without consuming index bytes. Stops once `total` pixels are
/// accounted for; fails on a short read.
pub open spec fn spec_rle(
    buf: Seq<u8>,
    pos: int,
    total: int,
    filled: int,
    idx: Seq<u8>,
    al: Seq<u8>,
) -> Result<(Seq<u8>, Seq<u8>), SpriteFormatError>
    decreases buf.len() - pos,
        when 0 <= pos <= buf.len()
{
    if filled >= total {
        Ok((idx, al))
    } else if pos + 2 > buf.len() {
        Err(SpriteFormatError::Truncated)
    } else {
        let count = buf[pos] as int;
        let alpha = buf[pos + 1];
        if alpha > 0 {
            let take = if count <= total - filled {
                count
            } else {
                total - filled
            };
            if pos + 2 + take > buf.len() {
                Err(SpriteFormatError::Truncated)
            } else {
                spec_rle(
                    buf,
                    pos + 2 + take,
                    total,
                    filled + take,
                    fill_run(idx, filled, take, buf, pos + 2),
                    fill_alpha(al, filled, take, alpha),
                )
            }
        } else {
            spec_rle(buf, pos + 2, total, filled + count, idx, al)
        }
    }
}

/// A raster of `n` pixels, all zero: the state of a frame's index and
/// alpha arrays before any run is written.
pub open spec fn zero_raster(n: nat) -> Seq<u8> {
    Seq::new(n, |i: int| 0u8)
}

/// The frame stored at absolute offset `start`: 8 header bytes, then
/// the run-length pixel stream decoded into zero-initialized rasters.
pub open spec fn spec_frame(buf: Seq<u8>, start: int) -> Result<SprFrameV, SpriteFormatError> {
    if start < 0 || start + 8 > buf.len() {
        Err(SpriteFormatError::Truncated)
    } else {
        let w = le16_at(buf, start);
        let h = le16_at(buf, start + 2);
        let ox = le_i16_at(buf, start + 4);
        let oy = le_i16_at(buf, start + 6);
        let total = w as int * h as int;
        match spec_rle(buf, start + 8, total, 0, zero_raster(total as nat), zero_raster(total as nat)) {
            Ok(run) => Ok(
                SprFrameV {
                    width: w,
                    height: h,
                    offset_x: ox,
                    offset_y: oy,
                    indices: run.0,
                    alphas: run.1,
                },
            ),
            Err(e) => Err(e),
        }
    }
}

/// The first `n` frames, in order: the directory entry `i` (at
/// `dir_base + 8*i`) gives each frame's offset relative to `data_base`,
/// the position right after the directory. The first failing frame
/// fails the parse.
pub open spec fn spec_frames(buf: Seq<u8>, dir_base: int, data_base: int, n: int) -> Result<
    Seq<SprFrameV>,
    SpriteFormatError,
>
    decreases n,
{
    if n <= 0 {
        Ok(Seq::empty())
    } else {
        match spec_frames(buf, dir_base, data_base, n - 1) {
            Err(e) => Err(e),
            Ok(fs) => match spec_frame(buf, data_base + le32_at(buf, dir_base + 8 * (n - 1))) {
                Err(e) => Err(e),
                Ok(f) => Ok(fs.push(f)),
            },
        }
    }
}

/// What parsing a sprite buffer yields: the decoded file, or the first
/// error. Parsing is a pure function of the bytes.
pub open spec fn spec_parse_spr(buf: Seq<u8>) -> Result<SprFileV, SpriteFormatError> {
    if buf.len() < 4 {
        Err(SpriteFormatError::Truncated)
    } else if !(buf[0] == 83 && buf[1] == 80 && buf[2] == 82) {
        Err(SpriteFormatError::BadSignature)
    } else if buf.len() < 32 {
        Err(SpriteFormatError::Truncated)
    } else {
        let h = spec_header(buf);
        let dir_base = 32 + 3 * h.colors as int;
        let data_base = dir_base + 8 * h.frames as int;
        if buf.len() < dir_base {
            Err(SpriteFormatError::Truncated)
        } else if buf.len() < data_base {
            Err(SpriteFormatError::Truncated)
        } else {
            match spec_frames(buf, dir_base, data_base, h.frames as int) {
                Err(e) => Err(e),
                Ok(fs) => Ok(
                    SprFileV {
                        header: h,
                        palette: spec_palette(buf, h.colors as int),
                        frames: fs,
                    },
                ),
            }
        }
    }
}

/// A parse that fails on some frame prefix stays failed for any longer
/// prefix: the first error wins.
proof fn lemma_frames_err_persists(
    buf: Seq<u8>,
    dir_base: int,
    data_base: int,
    k: int,
    n: int,
    e: SpriteFormatError,
)
    requires
        0 <= k <= n,
        spec_frames(buf, dir_base, data_base, k) == Err::<Seq<SprFrameV>, SpriteFormatError>(e),
    ensures
        spec_frames(buf, dir_base, data_base, n) == Err::<Seq<SprFrameV>, SpriteFormatError>(e),
    decreases n - k,
{
    if k < n {
        lemma_frames_err_persists(buf, dir_base, data_base, k, n - 1, e);
    }
}

/// Decodes one frame's run-length pixel stream into the given
/// zero-initialized rasters.
fn parse_frame(buf: &[u8], start: usize) -> (r: Result<SprFrameInfo, SpriteFormatError>)
    requires
        start + 8 <= buf@.len(),
    ensures
        match r {
            Ok(f) => spec_frame(buf@, start as int) == Ok::<SprFrameV, SpriteFormatError>(f@),
            Err(e) => spec_frame(buf@, start as int) == Err::<SprFrameV, SpriteFormatError>(e),
        },
{
    let blen: usize = buf.len();
    let w = read_u16_at(buf, start);
    let h = read_u16_at(buf, start + 2);
    let ox = read_i16_at(buf, start + 4);
    let oy = read_i16_at(buf, start + 6);
    proof {
        assert(w as int * h as int <= 0xffff * 0xffff) by (nonlinear_arith)
            requires
                w <= 0xffff && h <= 0xffff,
        ;
    }
    let total: usize = (w as usize) * (h as usize);
    let mut indices: Vec<u8> = vec![0u8; total];
    let mut alphas: Vec<u8> = vec![0u8; total];
    let ghost grle = spec_rle(
        buf@,
        start as int + 8,
        total as int,
        0,
        zero_raster(total as nat),
        zero_raster(total as nat),
    );
    proof {
        assert(indices@ =~= zero_raster(total as nat));
        assert(alphas@ =~= zero_raster(total as nat));
        assert((w as int * h as int) as nat == total as nat);
    }
    let mut pos: usize = start + 8;
    let mut filled: usize = 0;
    loop
        invariant
            pos <= buf@.len(),
            blen == buf@.len(),
            start as int + 8 <= buf@.len(),
            w == le16_at(buf@, start as int),
            h == le16_at(buf@, start as int + 2),
            total == w as int * h as int,
            grle == spec_rle(buf@, start as int + 8, total as int, 0, zero_raster(total as nat),
                zero_raster(total as nat)),
            filled <= total + 255,
            indices@.len() == total,
            alphas@.len() == total,
            spec_rle(buf@, pos as int, total as int, filled as int, indices@, alphas@) == grle,
        ensures
            filled >= total,
            spec_rle(buf@, pos as int, total as int, filled as int, indices@, alphas@) == grle,
        decreases buf@.len() - pos,
    {
        if filled >= total {
            break ;
        }
        if blen - pos < 2 {
            proof {
                assert(spec_rle(buf@, pos as int, total as int, filled as int, indices@, alphas@)
                    == Err::<(Seq<u8>, Seq<u8>), SpriteFormatError>(SpriteFormatError::Truncated));
                assert(grle == Err::<(Seq<u8>, Seq<u8>), SpriteFormatError>(
                    SpriteFormatError::Truncated));
                assert(spec_frame(buf@, start as int) == Err::<SprFrameV, SpriteFormatError>(
                    SpriteFormatError::Truncated));
            }
            return Err(SpriteFormatError::Truncated);
        }
        let count = buf[pos] as usize;
        let alpha = buf[pos + 1];
        if alpha > 0 {
            let budget = total - filled;
            let take = if count <= budget {
                count
            } else {
                budget
            };
            if blen - (pos + 2) < take {
                proof {
                    assert(spec_rle(buf@, pos as int, total as int, filled as int, indices@,
                        alphas@) == Err::<(Seq<u8>, Seq<u8>), SpriteFormatError>(
                        SpriteFormatError::Truncated));
                }
                return Err(SpriteFormatError::Truncated);
            }
            let ghost idx0 = indices@;
            let ghost al0 = alphas@;
            let mut k: usize = 0;
            while k < take
                invariant
                    k <= take,
                    filled + take <= total,
                    pos + 2 + take <= buf@.len(),
                    buf@.len() <= usize::MAX,
                    indices@.len() == total,
                    alphas@.len() == total,
                    idx0.len() == total,
                    al0.len() == total,
                    indices@ =~= fill_run(idx0, filled as int, k as int, buf@, pos as int + 2),
                    alphas@ =~= fill_alpha(al0, filled as int, k as int, alpha),
                decreases take - k,
            {
                let v = buf[pos + 2 + k];
                indices[filled + k] = v;
                alphas[filled + k] = alpha;
                proof {
                    assert(indices@ =~= fill_run(idx0, filled as int, k as int + 1, buf@,
                        pos as int + 2));
                    assert(alphas@ =~= fill_alpha(al0, filled as int, k as int + 1, alpha));
                }
                k = k + 1;
            }
            proof {
                assert(spec_rle(buf@, pos as int, total as int, filled as int, idx0, al0)
                    == spec_rle(buf@, pos as int + 2 + take as int, total as int, filled as int
                    + take as int, indices@, alphas@));
            }
            pos = pos + 2 + take;
            filled = filled + take;
        } else {
            proof {
                assert(spec_rle(buf@, pos as int, total as int, filled as int, indices@, alphas@)
                    == spec_rle(buf@, pos as int + 2, total as int, filled as int + count as int,
                    indices@, alphas@));
            }
            pos = pos + 2;
            filled = if count <= total - filled {
                filled + count
            } else {
                total
            };
            proof {
                assert(spec_rle(buf@, pos as int, total as int, filled as int, indices@, alphas@)
                    == grle);
            }
        }
    }
    proof {
        assert(grle == Ok::<(Seq<u8>, Seq<u8>), SpriteFormatError>((indices@, alphas@)));
        assert(spec_frame(buf@, start as int) is Ok);
    }
    Ok(
        SprFrameInfo {
            width: w,
            height: h,
            offset_x: ox,
            offset_y: oy,
            decoded_indices: indices,
            alpha_map: alphas,
        },
    )
}

impl SprFile {
    /// Parses a sprite from a byte buffer: signature, header fields,
    /// palette, frame directory, then every frame's raster. Returns
    /// exactly what the format's spec denotes for these bytes.
    pub fn parse(buf: &[u8]) -> (r: Result<SprFile, SpriteFormatError>)
        ensures
            match r {
                Ok(f) => spec_parse_spr(buf@) == Ok::<SprFileV, SpriteFormatError>(f@),
                Err(e) => spec_parse_spr(buf@) == Err::<SprFileV, SpriteFormatError>(e),
            },
    {
        if buf.len() < 4 {
            return Err(SpriteFormatError::Truncated);
        }
        if !(buf[0] == 83 && buf[1] == 80 && buf[2] == 82) {
            return Err(SpriteFormatError::BadSignature);
        }
        if buf.len() < 32 {
            return Err(SpriteFormatError::Truncated);
        }
        let header = SprHeader {
            signature: [buf[0], buf[1], buf[2], buf[3]],
            width: read_u16_at(buf, 4),
            height: read_u16_at(buf, 6),
            center_x: read_u16_at(buf, 8),
            center_y: read_u16_at(buf, 10),
            frames: read_u16_at(buf, 12),
            colors: read_u16_at(buf, 14),
            directions: read_u16_at(buf, 16),
            interval: read_u16_at(buf, 18),
            reserved: [
                read_u16_at(buf, 20),
                read_u16_at(buf, 22),
                read_u16_at(buf, 24),
                read_u16_at(buf, 26),
                read_u16_at(buf, 28),
                read_u16_at(buf, 30),
            ],
        };
        proof {
            assert(header@.signature =~= buf@.subrange(0, 4));
            assert(header@.reserved =~= Seq::new(6, |i: int| le16_at(buf@, 20 + 2 * i)));
            assert(header@ == spec_header(buf@));
        }
        let colors = header.colors;
        let frame_count = header.frames;
        let dir_base: usize = 32 + 3 * (colors as usize);
        let data_base: usize = dir_base + 8 * (frame_count as usize);
        if buf.len() < dir_base {
            return Err(SpriteFormatError::Truncated);
        }
        if buf.len() < data_base {
            return Err(SpriteFormatError::Truncated);
        }

        let mut palette: Vec<SprColor> = Vec::new();
        let mut i: usize = 0;
        while i < colors as usize
            invariant
                i <= colors as int,
                32 + 3 * (colors as int) <= buf@.len(),
                palette@ =~= spec_palette(buf@, colors as int).take(i as int),
            decreases colors as int - i,
        {
            let base = 32 + 3 * i;
            palette.push(
                SprColor { r: buf[base], g: buf[base + 1], b: buf[base + 2] },
            );
            proof {
                assert(palette@ =~= spec_palette(buf@, colors as int).take(i as int + 1));
            }
            i = i + 1;
        }
        proof {
            assert(palette@ =~= spec_palette(buf@, colors as int));
        }

        let mut frames: Vec<SprFrameInfo> = Vec::new();
        proof {
            assert(frames@.map_values(|f: SprFrameInfo| f@) =~= Seq::<SprFrameV>::empty());
        }
        let mut i: usize = 0;
        while i < frame_count as usize
            invariant
                i <= frame_count as int,
                32 + 3 * (colors as int) == dir_base as int,
                dir_base as int + 8 * (frame_count as int) == data_base as int,
                data_base <= buf@.len(),
                buf@.len() <= usize::MAX,
                buf@.len() >= 32,
                buf@[0] == 83 && buf@[1] == 80 && buf@[2] == 82,
                colors == spec_header(buf@).colors,
                frame_count == spec_header(buf@).frames,
                palette@ =~= spec_palette(buf@, colors as int),
                spec_frames(buf@, dir_base as int, data_base as int, i as int) == Ok::<
                    Seq<SprFrameV>,
                    SpriteFormatError,
                >(frames@.map_values(|f: SprFrameInfo| f@)),
            decreases frame_count as int - i,
        {
            let off = read_u32_at(buf, dir_base + 8 * i);
            let start64: u64 = (data_base as u64) + (off as u64);
            if start64 + 8 > (buf.len() as u64) {
                proof {
                    assert(spec_frame(buf@, data_base as int + off as int) == Err::<
                        SprFrameV,
                        SpriteFormatError,
                    >(SpriteFormatError::Truncated));
                    assert(spec_frames(buf@, dir_base as int, data_base as int, i as int + 1)
                        == Err::<Seq<SprFrameV>, SpriteFormatError>(SpriteFormatError::Truncated));
                    lemma_frames_err_persists(buf@, dir_base as int, data_base as int, i as int
                        + 1, frame_count as int, SpriteFormatError::Truncated);
                    assert(spec_parse_spr(buf@) == Err::<SprFileV, SpriteFormatError>(
                        SpriteFormatError::Truncated));
                }
                return Err(SpriteFormatError::Truncated);
            }
            let start: usize = start64 as usize;
            match parse_frame(buf, start) {
                Ok(f) => {
                    let ghost pre = frames@;
                    frames.push(f);
                    proof {
                        assert(frames@.map_values(|f: SprFrameInfo| f@) =~= pre.map_values(
                            |f: SprFrameInfo| f@).push(frames@[pre.len() as int]@));
                    }
                },
                Err(e) => {
                    proof {
                        assert(spec_frames(buf@, dir_base as int, data_base as int, i as int + 1)
                            == Err::<Seq<SprFrameV>, SpriteFormatError>(e));
                        lemma_frames_err_persists(buf@, dir_base as int, data_base as int, i as int
                            + 1, frame_count as int, e);
                        assert(spec_parse_spr(buf@) == Err::<SprFileV, SpriteFormatError>(e));
                    }
                    return Err(e);
                },
            }
            i = i + 1;
        }

        let result = SprFile { header, palette, frames };
        Ok(result)
    }
}

/// Parsing is deterministic: any two results the parser's contract
/// admits for the same bytes are the same, so decoding a sprite buffer
/// twice yields identical rasters.
pub proof fn lemma_spr_parse_deterministic(buf: Seq<u8>, a: SprFileV, b: SprFileV)
    requires
        spec_parse_spr(buf) == Ok::<SprFileV, SpriteFormatError>(a),
        spec_parse_spr(buf) == Ok::<SprFileV, SpriteFormatError>(b),
    ensures
        a == b,
{
}

/// A sprite with no colors and no frames is not an error: it parses to
/// an empty palette and an empty frame list.
pub proof fn lemma_empty_sprite(buf: Seq<u8>)
    requires
        buf.len() >= 32,
        buf[0] == 83 && buf[1] == 80 && buf[2] == 82,
        spec_header(buf).colors == 0,
        spec_header(buf).frames == 0,
    ensures
        spec_parse_spr(buf) == Ok::<SprFileV, SpriteFormatError>(
            SprFileV {
                header: spec_header(buf),
                palette: Seq::<SprColor>::empty(),
                frames: Seq::<SprFrameV>::empty(),
            },
        ),
{
    assert(spec_palette(buf, 0) =~= Seq::<SprColor>::empty());
    assert(spec_frames(buf, 32, 32, 0) == Ok::<Seq<SprFrameV>, SpriteFormatError>(
        Seq::<SprFrameV>::empty(),
    ));
}

/// The RGBA raster a frame denotes against a palette, row-major, four
/// bytes per pixel: an opaque pixel with an in-range index takes its
/// palette color and its own alpha; any other pixel is fully
/// transparent, whatever its index holds.
pub open spec fn spec_rgba(f: SprFrameV, pal: Seq<SprColor>) -> Seq<u8> {
    Seq::new(
        f.indices.len() * 4,
        |i: int|
            {
                let p = i / 4;
                let c = i % 4;
                if f.alphas[p] > 0 && (f.indices[p] as int) < pal.len() {
                    let col = pal[f.indices[p] as int];
                    if c == 0 {
                        col.r
                    } else if c == 1 {
                        col.g
                    } else if c == 2 {
                        col.b
                    } else {
                        f.alphas[p]
                    }
                } else {
                    0u8
                }
            },
    )
}

/// Materializes one frame as RGBA bytes for a renderer: palette lookup
/// per pixel, the per-pixel alpha kept, transparent or out-of-palette
/// pixels cleared.
pub fn frame_rgba(frame: &SprFrameInfo, palette: &Vec<SprColor>) -> (r: Vec<u8>)
    requires
        frame.decoded_indices@.len() == frame.alpha_map@.len(),
        4 * frame.decoded_indices@.len() <= usize::MAX,
    ensures
        r@ == spec_rgba(frame@, palette@),
{
    let n = frame.decoded_indices.len();
    let mut out: Vec<u8> = Vec::new();
    let mut i: usize = 0;
    while i < n
        invariant
            i <= n,
            n == frame.decoded_indices@.len(),
            n == frame.alpha_map@.len(),
            4 * n <= usize::MAX,
            out@.len() == 4 * i,
            out@ =~= spec_rgba(frame@, palette@).take(4 * i as int),
        decreases n - i,
    {
        let alpha = frame.alpha_map[i];
        let idx = frame.decoded_indices[i] as usize;
        if alpha > 0 && idx < palette.len() {
            let col = palette[idx];
            out.push(col.r);
            out.push(col.g);
            out.push(col.b);
            out.push(alpha);
        } else {
            out.push(0);
            out.push(0);
            out.push(0);
            out.push(0);
        }
        proof {
            assert(out@ =~= spec_rgba(frame@, palette@).take(4 * (i as int + 1)));
        }
        i = i + 1;
    }
    proof {
        assert(out@ =~= spec_rgba(frame@, palette@));
    }
    out
}

/// Run decoding never changes the raster lengths: what comes out is as
/// long as what went in.
proof fn lemma_rle_lengths(buf: Seq<u8>, pos: int, total: int, filled: int, idx: Seq<u8>, al: Seq<u8>)
    requires
        0 <= pos <= buf.len(),
    ensures
        spec_rle(buf, pos, total, filled, idx, al) matches Ok(r) ==> r.0.len() == idx.len()
            && r.1.len() == al.len(),
    decreases buf.len() - pos,
{
    if filled >= total {
    } else if pos + 2 > buf.len() {
    } else {
        let count = buf[pos] as int;
        let alpha = buf[pos + 1];
        if alpha > 0 {
            let take = if count <= total - filled {
                count
            } else {
                total - filled
            };
            if pos + 2 + take <= buf.len() {
                lemma_rle_lengths(buf, pos + 2 + take, total, filled + take,
                    fill_run(idx, filled, take, buf, pos + 2), fill_alpha(al, filled, take, alpha));
            }
        } else {
            lemma_rle_lengths(buf, pos + 2, total, filled + count, idx, al);
        }
    }
}

/// A decoded frame's rasters are exactly `width * height` bytes long.
proof fn lemma_frame_lengths(buf: Seq<u8>, start: int)
    ensures
        spec_frame(buf, start) matches Ok(f) ==> f.indices.len() == f.width as int
            * f.height as int && f.alphas.len() == f.width as int * f.height as int,
{
    if 0 <= start && start + 8 <= buf.len() {
        let w = le16_at(buf, start);
        let h = le16_at(buf, start + 2);
        let total = w as int * h as int;
        lemma_rle_lengths(buf, start + 8, total, 0, zero_raster(total as nat),
            zero_raster(total as nat));
    }
}

/// A successful frame list holds one well-sized frame per directory
/// entry.
proof fn lemma_frames_lengths(buf: Seq<u8>, dir_base: int, data_base: int, n: int)
    requires
        n >= 0,
    ensures
        spec_frames(buf, dir_base, data_base, n) matches Ok(fs) ==> fs.len() == n && (forall|
            i: int,
        |
            0 <= i < n ==> (#[trigger] fs[i]).indices.len() == fs[i].width as int
                * fs[i].height as int && fs[i].alphas.len() == fs[i].width as int
                * fs[i].height as int),
    decreases n,
{
    if n > 0 {
        lemma_frames_lengths(buf, dir_base, data_base, n - 1);
        lemma_frame_lengths(buf, data_base + le32_at(buf, dir_base + 8 * (n - 1)));
    }
}

/// What a successful parse is shaped like: one palette entry per
/// declared color, one frame per directory entry, and, for every
/// frame, index and alpha rasters of exactly `width * height` bytes.
pub proof fn lemma_parse_shape(buf: Seq<u8>, f: SprFileV)
    requires
        spec_parse_spr(buf) == Ok::<SprFileV, SpriteFormatError>(f),
    ensures
        f.palette.len() == f.header.colors,
        f.frames.len() == f.header.frames,
        forall|i: int|
            0 <= i < f.frames.len() ==> (#[trigger] f.frames[i]).indices.len()
                == f.frames[i].width as int * f.frames[i].height as int
                && f.frames[i].alphas.len() == f.frames[i].width as int
                * f.frames[i].height as int,
{
    let h = spec_header(buf);
    let dir_base = 32 + 3 * h.colors as int;
    let data_base = dir_base + 8 * h.frames as int;
    lemma_frames_lengths(buf, dir_base, data_base, h.frames as int);
}

} // verus!
