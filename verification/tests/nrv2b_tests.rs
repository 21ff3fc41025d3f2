use jx_remake::nrv2b::{nrv2b_decompress_8, DecompressError};
use jx_remake::pak::{decode_entry_data, EntryPayload, PakEntry};

/// Builds an NRV2B bitstream: bits are packed MSB-first into carrier
/// bytes that are interleaved with literal and offset bytes exactly
/// where the decoder will pull them.
struct StreamBuilder {
    out: Vec<u8>,
    bit_slot: Option<(usize, u8)>,
}

impl StreamBuilder {
    fn new() -> StreamBuilder {
        StreamBuilder {
            out: Vec::new(),
            bit_slot: None,
        }
    }

    fn bit(&mut self, b: u8) {
        match self.bit_slot {
            Some((i, used)) if used < 8 => {
                self.out[i] |= b << (7 - used);
                self.bit_slot = Some((i, used + 1));
            }
            _ => {
                self.out.push(b << 7);
                self.bit_slot = Some((self.out.len() - 1, 1));
            }
        }
    }

    fn lit(&mut self, v: u8) {
        self.bit(1);
        self.out.push(v);
    }

    /// The unary-prefixed binary offset code: the bits of `code` after
    /// its leading 1, each followed by a continue/stop flag.
    fn offset_code(&mut self, code: u32) {
        let width = 31 - code.leading_zeros();
        for i in (0..width).rev() {
            self.bit(((code >> i) & 1) as u8);
            self.bit(if i == 0 { 1 } else { 0 });
        }
    }

    /// A match: exits the literal loop, writes the offset code (with
    /// its extra byte unless the code is the reuse code 2) and a
    /// nonzero 2-bit length code.
    fn match_ref(&mut self, code: u32, extra_byte: u8, len_bits: u8) {
        self.bit(0);
        self.offset_code(code);
        if code != 2 {
            self.out.push(extra_byte);
        }
        self.bit((len_bits >> 1) & 1);
        self.bit(len_bits & 1);
    }

    /// The end of stream: offset code 0x1000002 with extra byte 0xff
    /// resolves to the raw value 0xffffffff, the sentinel.
    fn sentinel(mut self) -> Vec<u8> {
        self.bit(0);
        self.offset_code(0x1000002);
        self.out.push(0xff);
        self.out
    }
}

fn literal_stream(data: &[u8]) -> Vec<u8> {
    let mut b = StreamBuilder::new();
    for &v in data {
        b.lit(v);
    }
    b.sentinel()
}

#[test]
fn literal_only_stream_round_trips() {
    let src = literal_stream(b"hi");
    assert_eq!(src, vec![192, 104, 105, 0, 0, 0, 0, 1, 32, 255]);
    assert_eq!(nrv2b_decompress_8(&src, 2), Ok(b"hi".to_vec()));
}

#[test]
fn back_reference_round_trips() {
    // Literals "ab", then a match at offset 2 copying 2 bytes.
    let mut b = StreamBuilder::new();
    b.lit(b'a');
    b.lit(b'b');
    b.match_ref(3, 0x01, 1);
    let src = b.sentinel();
    assert_eq!(src, vec![218, 97, 98, 1, 0, 0, 0, 0, 0, 9, 255]);
    assert_eq!(nrv2b_decompress_8(&src, 4), Ok(b"abab".to_vec()));
}

#[test]
fn overlapping_copy_repeats_written_bytes() {
    // One literal, then a match at offset 1 copying 4 bytes: the copy
    // overlaps its own output and must observe its earlier writes.
    let mut b = StreamBuilder::new();
    b.lit(b'x');
    b.match_ref(3, 0x00, 3);
    let src = b.sentinel();
    assert_eq!(nrv2b_decompress_8(&src, 5), Ok(b"xxxxx".to_vec()));
}

#[test]
fn empty_stream_decodes_to_nothing() {
    let src = literal_stream(b"");
    assert_eq!(nrv2b_decompress_8(&src, 0), Ok(Vec::new()));
}

#[test]
fn truncating_a_stream_raises_an_error() {
    let mut src = StreamBuilder::new();
    src.lit(b'a');
    src.lit(b'b');
    src.match_ref(3, 0x01, 1);
    let mut src = src.sentinel();
    src.pop();
    assert_eq!(
        nrv2b_decompress_8(&src, 4),
        Err(DecompressError::InputOverrun)
    );
}

#[test]
fn declared_length_shorter_than_output_is_an_overrun() {
    let src = literal_stream(b"hi");
    assert_eq!(
        nrv2b_decompress_8(&src, 1),
        Err(DecompressError::OutputOverrun)
    );
}

#[test]
fn empty_input_is_an_input_overrun() {
    assert_eq!(
        nrv2b_decompress_8(&[], 4),
        Err(DecompressError::InputOverrun)
    );
}

#[test]
fn decompressing_twice_yields_identical_bytes() {
    let mut b = StreamBuilder::new();
    b.lit(b'a');
    b.lit(b'b');
    b.match_ref(3, 0x01, 1);
    let src = b.sentinel();
    let once = nrv2b_decompress_8(&src, 4);
    let twice = nrv2b_decompress_8(&src, 4);
    assert_eq!(once, twice);
}

#[test]
fn compressed_entry_decodes_through_the_archive_path() {
    let mut b = StreamBuilder::new();
    b.lit(b'a');
    b.lit(b'b');
    b.match_ref(3, 0x01, 1);
    let src = b.sentinel();
    let entry = PakEntry {
        id: 1,
        offset: 0,
        original_size: 4,
        compress_flag: 0x01_00_00_00 | src.len() as u32,
    };
    let payload = decode_entry_data(&entry, src).expect("ok");
    assert_eq!(payload, EntryPayload::Decompressed(b"abab".to_vec()));
}
