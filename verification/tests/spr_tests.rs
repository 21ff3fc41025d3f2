use jx_remake::spr::{frame_rgba, SprFile, SprFrameInfo, SpriteFormatError};

fn push_u16(out: &mut Vec<u8>, v: u16) {
    out.extend_from_slice(&v.to_le_bytes());
}

fn push_u32(out: &mut Vec<u8>, v: u32) {
    out.extend_from_slice(&v.to_le_bytes());
}

/// A sprite header: signature, eight core fields, six reserved words.
fn push_header(out: &mut Vec<u8>, frames: u16, colors: u16) {
    out.extend_from_slice(b"SPR\0");
    push_u16(out, 2); // width (nominal)
    push_u16(out, 2); // height (nominal)
    push_u16(out, 1); // center_x
    push_u16(out, 1); // center_y
    push_u16(out, frames);
    push_u16(out, colors);
    push_u16(out, 1); // directions
    push_u16(out, 4); // interval
    for _ in 0..6 {
        push_u16(out, 0);
    }
}

/// One color, one 2x2 frame: a transparent run of 2 pixels, then an
/// opaque run of 2 pixels with indices 0.
fn minimal_sprite() -> Vec<u8> {
    let mut out = Vec::new();
    push_header(&mut out, 1, 1);
    out.extend_from_slice(&[255, 0, 0]); // palette: one red entry
    push_u32(&mut out, 0); // frame 0 offset, relative to directory end
    push_u32(&mut out, 0); // frame 0 length (informational, untrusted)
    // frame header: width 2, height 2, offsets (1, -1)
    push_u16(&mut out, 2);
    push_u16(&mut out, 2);
    out.extend_from_slice(&1i16.to_le_bytes());
    out.extend_from_slice(&(-1i16).to_le_bytes());
    // pixel stream: skip 2 transparent, then 2 opaque pixels
    out.extend_from_slice(&[2, 0]);
    out.extend_from_slice(&[2, 255, 0, 0]);
    out
}

#[test]
fn minimal_sprite_decodes_expected_rasters() {
    let spr = SprFile::parse(&minimal_sprite()).expect("parse");
    assert_eq!(spr.header.frames, 1);
    assert_eq!(spr.header.colors, 1);
    assert_eq!(spr.palette.len(), 1);
    assert_eq!(spr.palette[0].r, 255);
    assert_eq!(spr.palette[0].g, 0);
    assert_eq!(spr.palette[0].b, 0);
    assert_eq!(spr.frames.len(), 1);
    let f = &spr.frames[0];
    assert_eq!((f.width, f.height), (2, 2));
    assert_eq!((f.offset_x, f.offset_y), (1, -1));
    assert_eq!(f.decoded_indices, vec![0, 0, 0, 0]);
    assert_eq!(f.alpha_map, vec![0, 0, 255, 255]);
}

#[test]
fn corrupted_signature_is_rejected() {
    let mut bytes = minimal_sprite();
    bytes[1] = b'Q';
    assert_eq!(
        SprFile::parse(&bytes).err(),
        Some(SpriteFormatError::BadSignature)
    );
}

#[test]
fn fourth_signature_byte_is_ignored() {
    let mut bytes = minimal_sprite();
    bytes[3] = 0x7f;
    assert!(SprFile::parse(&bytes).is_ok());
}

#[test]
fn zero_color_zero_frame_sprite_decodes_empty() {
    let mut bytes = Vec::new();
    push_header(&mut bytes, 0, 0);
    let spr = SprFile::parse(&bytes).expect("parse");
    assert_eq!(spr.palette.len(), 0);
    assert_eq!(spr.frames.len(), 0);
}

#[test]
fn truncated_pixel_stream_is_rejected() {
    let mut bytes = minimal_sprite();
    bytes.truncate(bytes.len() - 1);
    assert_eq!(
        SprFile::parse(&bytes).err(),
        Some(SpriteFormatError::Truncated)
    );
}

#[test]
fn truncated_header_is_rejected() {
    let bytes = minimal_sprite();
    assert_eq!(
        SprFile::parse(&bytes[0..20]).err(),
        Some(SpriteFormatError::Truncated)
    );
    assert_eq!(
        SprFile::parse(&bytes[0..3]).err(),
        Some(SpriteFormatError::Truncated)
    );
}

#[test]
fn overlong_opaque_run_is_truncated_at_the_pixel_budget() {
    let mut out = Vec::new();
    push_header(&mut out, 1, 1);
    out.extend_from_slice(&[0, 255, 0]);
    push_u32(&mut out, 0);
    push_u32(&mut out, 0);
    push_u16(&mut out, 3); // width 3, height 1: 3 pixels
    push_u16(&mut out, 1);
    out.extend_from_slice(&0i16.to_le_bytes());
    out.extend_from_slice(&0i16.to_le_bytes());
    // one opaque run declares 5 pixels; only 3 index bytes are consumed
    out.extend_from_slice(&[5, 7, 10, 11, 12]);
    let spr = SprFile::parse(&out).expect("parse");
    let f = &spr.frames[0];
    assert_eq!(f.decoded_indices, vec![10, 11, 12]);
    assert_eq!(f.alpha_map, vec![7, 7, 7]);
}

#[test]
fn parsing_twice_yields_identical_results() {
    let bytes = minimal_sprite();
    let a = SprFile::parse(&bytes).expect("parse");
    let b = SprFile::parse(&bytes).expect("parse");
    assert_eq!(a, b);
}

#[test]
fn frames_may_differ_in_size() {
    let mut out = Vec::new();
    push_header(&mut out, 2, 1);
    out.extend_from_slice(&[1, 2, 3]);
    // directory: frame payloads are 8 header bytes plus their runs
    push_u32(&mut out, 0);
    push_u32(&mut out, 0);
    push_u32(&mut out, 12);
    push_u32(&mut out, 0);
    // frame 0: 1x1, one opaque pixel
    push_u16(&mut out, 1);
    push_u16(&mut out, 1);
    out.extend_from_slice(&0i16.to_le_bytes());
    out.extend_from_slice(&0i16.to_le_bytes());
    out.extend_from_slice(&[1, 9, 0]);
    out.push(0xaa); // padding between frames: never read
    // frame 1: 2x1, transparent
    push_u16(&mut out, 2);
    push_u16(&mut out, 1);
    out.extend_from_slice(&0i16.to_le_bytes());
    out.extend_from_slice(&0i16.to_le_bytes());
    out.extend_from_slice(&[2, 0]);
    let spr = SprFile::parse(&out).expect("parse");
    assert_eq!(spr.frames.len(), 2);
    assert_eq!((spr.frames[0].width, spr.frames[0].height), (1, 1));
    assert_eq!(spr.frames[0].alpha_map, vec![9]);
    assert_eq!((spr.frames[1].width, spr.frames[1].height), (2, 1));
    assert_eq!(spr.frames[1].alpha_map, vec![0, 0]);
}

#[test]
fn rgba_materialization_follows_palette_and_alpha() {
    let spr = SprFile::parse(&minimal_sprite()).expect("parse");
    let rgba = frame_rgba(&spr.frames[0], &spr.palette);
    assert_eq!(
        rgba,
        vec![0, 0, 0, 0, 0, 0, 0, 0, 255, 0, 0, 255, 255, 0, 0, 255]
    );
}

#[test]
fn rgba_clears_out_of_palette_indices() {
    let frame = SprFrameInfo {
        width: 2,
        height: 1,
        offset_x: 0,
        offset_y: 0,
        decoded_indices: vec![0, 7],
        alpha_map: vec![128, 128],
    };
    let spr = SprFile::parse(&minimal_sprite()).expect("parse");
    let rgba = frame_rgba(&frame, &spr.palette);
    assert_eq!(rgba, vec![255, 0, 0, 128, 0, 0, 0, 0]);
}
