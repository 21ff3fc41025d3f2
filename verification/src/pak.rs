//! The archive container: a 24-byte header, raw or compressed payloads,
//! and a table of 16-byte entries addressed only by a 32-bit path hash.

use vstd::prelude::*;

use crate::bytes::le32_at;
use vstd::string::StringSliceAdditionalSpecFns;
use std::collections::HashMap;

use crate::nrv2b::{nrv2b_spec, DecompressError};

verus! {

/// The magic value the first header word must hold.
pub const PACK_SIGNATURE: u32 = 0x4b434150;

/// The archive header: four little-endian words followed by an unused
/// checksum word and 12 reserved bytes.
#[derive(Debug, Clone, Copy, PartialEq, Eq, Structural)]
pub struct PakHeader {
    pub signature: u32,
    pub count: u32,
    pub index_offset: u32,
    pub data_offset: u32,
    pub crc32: u32,
}

/// One index record. `id` is the path hash and the sole identity of the
/// payload; `compress_flag` packs the stored size (low 24 bits) with the
/// compression type (high 8 bits).
#[derive(Debug, Clone, Copy, PartialEq, Eq, Structural)]
pub struct PakEntry {
    pub id: u32,
    pub offset: u32,
    pub original_size: u32,
    pub compress_flag: u32,
}

impl PakEntry {
    /// The stored (on-disk) payload size: the low 24 bits of the flag word.
    pub open spec fn spec_stored_size(&self) -> u32 {
        (self.compress_flag % 0x100_0000) as u32
    }

    /// The compression type: the high 8 bits of the flag word.
    pub open spec fn spec_compression_type(&self) -> u8 {
        (self.compress_flag / 0x100_0000) as u8
    }

    pub fn get_stored_size(&self) -> (r: u32)
        ensures
            r == self.spec_stored_size(),
    {
        let f = self.compress_flag;
        proof {
            assert(f & 0x00FFFFFF == f % 0x100_0000) by (bit_vector);
        }
        f & 0x00FFFFFF
    }

    pub fn get_compression_type(&self) -> (r: u8)
        ensures
            r == self.spec_compression_type(),
    {
        let f = self.compress_flag;
        proof {
            assert((f >> 24) & 0xFF == f / 0x100_0000) by (bit_vector);
        }
        ((f >> 24) & 0xFF) as u8
    }
}

/// ASCII 'A'..'Z' folded to lowercase; every other byte unchanged.
pub open spec fn fold_lower(b: u8) -> u8 {
    if 65 <= b && b <= 90 {
        (b + 32) as u8
    } else {
        b
    }
}

/// A forward slash turned into a backslash; every other byte unchanged.
pub open spec fn slash_fold(b: u8) -> u8 {
    if b == 47 {
        92u8
    } else {
        b
    }
}

/// The byte read as a signed 8-bit value: bytes at or above 0x80 count
/// as negative. The legacy hash multiplies by this signed value, so it
/// must not be "corrected" to unsigned.
pub open spec fn signed_val(b: u8) -> int {
    if b < 128 {
        b as int
    } else {
        b as int - 256
    }
}

/// One round of the legacy hash: with `index` counting bytes from 1,
/// add `index` times the signed, case-folded byte (wrapping at 2^32),
/// reduce modulo 0x8000000b, then multiply by 0xffffffef (wrapping).
pub open spec fn hash_step(id: u32, index: int, b: u8) -> u32 {
    let term = (index * signed_val(fold_lower(b))) % 0x1_0000_0000;
    let sum = (id + term) % 0x1_0000_0000;
    let modded = sum % 0x8000000b;
    ((modded * 0xffffffef) % 0x1_0000_0000) as u32
}

/// The hash accumulator after the first `n` bytes of `s`.
pub open spec fn hash_prefix(s: Seq<u8>, n: int) -> u32
    decreases n,
{
    if n <= 0 {
        0u32
    } else {
        hash_step(hash_prefix(s, n - 1), n, s[n - 1])
    }
}

/// The hash of an already-normalized byte string: the folded
/// accumulator, XORed with the fixed final constant.
pub open spec fn hash_of_bytes(s: Seq<u8>) -> u32 {
    hash_prefix(s, s.len() as int) ^ 0x12345678
}

/// True when normalization must prepend a leading backslash: the string
/// is empty or does not begin with a slash of either kind.
pub open spec fn needs_leading_backslash(s: Seq<u8>) -> bool {
    s.len() == 0 || slash_fold(s[0]) != 92
}

/// Path normalization before hashing: every forward slash becomes a
/// backslash, and a leading backslash is prepended when missing.
pub open spec fn normalize_path_bytes(s: Seq<u8>) -> Seq<u8> {
    let mapped = Seq::new(s.len(), |i: int| slash_fold(s[i]));
    if needs_leading_backslash(s) {
        seq![92u8] + mapped
    } else {
        mapped
    }
}

/// The 32-bit key a path byte string addresses in an archive.
pub open spec fn jx_hash(s: Seq<u8>) -> u32 {
    hash_of_bytes(normalize_path_bytes(s))
}

/// `index * signed` reduced into a u32 the way a 32-bit wrapping
/// multiply would, computed with unsigned arithmetic only.
fn hash_term(k: u32, b: u8) -> (r: u32)
    ensures
        r as int == (k as int * signed_val(b)) % 0x1_0000_0000,
{
    proof {
        assert(k as int * 256 < 0x100_0000_0000) by (nonlinear_arith)
            requires
                (k as int) < 0x1_0000_0000,
        ;
        assert(0 <= k as int * b as int <= k as int * 256) by (nonlinear_arith)
            requires
                (k as int) >= 0 && 0 <= (b as int) <= 256,
        ;
        assert(0 <= k as int * (256 - b as int) <= k as int * 256) by (nonlinear_arith)
            requires
                (k as int) >= 0 && 0 <= (b as int) <= 256,
        ;
    }
    if b < 128 {
        let p: u64 = (k as u64) * (b as u64) % 0x1_0000_0000u64;
        proof {
            vstd::arithmetic::div_mod::lemma_mod_division_less_than_divisor(
                k as int * b as int, 0x1_0000_0000);
        }
        p as u32
    } else {
        let mag: u64 = 256 - (b as u64);
        let p: u64 = (k as u64) * mag % 0x1_0000_0000u64;
        proof {
            let y = k as int * mag as int;
            vstd::arithmetic::div_mod::lemma_mod_division_less_than_divisor(y, 0x1_0000_0000);
            vstd::arithmetic::div_mod::lemma_fundamental_div_mod(y, 0x1_0000_0000);
            let q = y / 0x1_0000_0000;
            assert(k as int * signed_val(b) == -y) by (nonlinear_arith)
                requires
                    y == k as int * mag as int && mag == 256 - b && b >= 128,
            ;
            if p == 0 {
                vstd::arithmetic::div_mod::lemma_fundamental_div_mod_converse_mod(
                    -y, 0x1_0000_0000, -q, 0);
            } else {
                vstd::arithmetic::div_mod::lemma_fundamental_div_mod_converse_mod(
                    -y, 0x1_0000_0000, -q - 1, 0x1_0000_0000 - p as int);
            }
        }
        if p == 0 {
            0
        } else {
            (0x1_0000_0000u64 - p) as u32
        }
    }
}

/// Hashes an already-normalized byte string.
fn hash_bytes_normalized(s: &[u8]) -> (r: u32)
    ensures
        r == hash_of_bytes(s@),
{
    let mut id: u32 = 0;
    let mut i: usize = 0;
    while i < s.len()
        invariant
            i <= s@.len(),
            id == hash_prefix(s@, i as int),
        decreases s@.len() - i,
    {
        let b = s[i];
        let bf: u8 = if 65 <= b && b <= 90 {
            b + 32
        } else {
            b
        };
        let k: u32 = (((i as u64) + 1) % 0x1_0000_0000u64) as u32;
        proof {
            vstd::arithmetic::div_mod::lemma_mod_division_less_than_divisor(
                i as int + 1, 0x1_0000_0000);
            vstd::arithmetic::div_mod::lemma_mul_mod_noop_left(
                i as int + 1, signed_val(bf), 0x1_0000_0000);
        }
        let term = hash_term(k, bf);
        let sum: u32 = (((id as u64) + (term as u64)) % 0x1_0000_0000u64) as u32;
        proof {
            vstd::arithmetic::div_mod::lemma_mod_division_less_than_divisor(
                id as int + term as int, 0x1_0000_0000);
        }
        let modded: u32 = sum % 0x8000000b;
        let id2: u32 = (((modded as u64) * 0xffffffef) % 0x1_0000_0000u64) as u32;
        proof {
            vstd::arithmetic::div_mod::lemma_mod_division_less_than_divisor(
                modded as int * 0xffffffef, 0x1_0000_0000);
            assert(id2 == hash_step(id, i as int + 1, s@[i as int]));
        }
        id = id2;
        i = i + 1;
    }
    id ^ 0x12345678
}

/// The legacy path-hash on raw path bytes: slashes normalized, a leading
/// backslash ensured, then the byte-wise signed rolling hash.
pub fn jx_file_name_hash_bytes(path: &[u8]) -> (r: u32)
    ensures
        r == jx_hash(path@),
{
    let mut norm: Vec<u8> = Vec::new();
    let needs = path.len() == 0 || (path[0] != 92 && path[0] != 47);
    if needs {
        norm.push(92);
    }
    let mut i: usize = 0;
    while i < path.len()
        invariant
            i <= path@.len(),
            needs == needs_leading_backslash(path@),
            norm@ == normalize_path_bytes(path@).take(
                i + if needs_leading_backslash(path@) { 1int } else { 0int }),
        decreases path@.len() - i,
    {
        let b = path[i];
        norm.push(if b == 47 {
            92
        } else {
            b
        });
        proof {
            assert(norm@ =~= normalize_path_bytes(path@).take(
                i + 1 + if needs_leading_backslash(path@) { 1int } else { 0int }));
        }
        i = i + 1;
    }
    proof {
        assert(norm@ =~= normalize_path_bytes(path@));
    }
    hash_bytes_normalized(norm.as_slice())
}

/// The legacy path-hash of a path string: the hash of its UTF-8 bytes.
/// Archives index payloads by this value alone.
pub fn jx_file_name_hash(path: &str) -> (r: u32)
    ensures
        r == jx_hash(path.spec_bytes()),
{
    jx_file_name_hash_bytes(path.as_bytes())
}

/// Reads a u32 from a little-endian 4-byte buffer.
pub fn read_u32_le(buf: &[u8]) -> (r: u32)
    requires
        buf@.len() == 4,
    ensures
        r == le32_at(buf@, 0),
{
    crate::bytes::read_u32_at(buf, 0)
}

/// Two byte strings that agree after case folding hash alike, step by step.
proof fn lemma_hash_prefix_fold_equiv(s: Seq<u8>, t: Seq<u8>, n: int)
    requires
        s.len() == t.len(),
        forall|i: int| 0 <= i < s.len() ==> fold_lower(s[i]) == fold_lower(t[i]),
        n <= s.len(),
    ensures
        hash_prefix(s, n) == hash_prefix(t, n),
    decreases n,
{
    if n > 0 {
        lemma_hash_prefix_fold_equiv(s, t, n - 1);
        assert(fold_lower(s[n - 1]) == fold_lower(t[n - 1]));
    }
}

/// The path hash is case-insensitive over ASCII: folding any letters of
/// the path to lowercase leaves the hash unchanged.
pub proof fn lemma_hash_case_insensitive(s: Seq<u8>)
    ensures
        jx_hash(s) == jx_hash(Seq::new(s.len(), |i: int| fold_lower(s[i]))),
{
    let cf = Seq::new(s.len(), |i: int| fold_lower(s[i]));
    let ns = normalize_path_bytes(s);
    let ncf = normalize_path_bytes(cf);
    assert forall|b: u8| slash_fold(fold_lower(b)) == fold_lower(slash_fold(b)) by {}
    assert(needs_leading_backslash(s) == needs_leading_backslash(cf));
    assert(ns.len() == ncf.len());
    assert forall|i: int| 0 <= i < ns.len() implies fold_lower(ns[i]) == fold_lower(ncf[i]) by {
        if needs_leading_backslash(s) {
            if i > 0 {
                assert(ns[i] == slash_fold(s[i - 1]));
                assert(ncf[i] == slash_fold(fold_lower(s[i - 1])));
            }
        } else {
            assert(ns[i] == slash_fold(s[i]));
            assert(ncf[i] == slash_fold(fold_lower(s[i])));
        }
    }
    lemma_hash_prefix_fold_equiv(ns, ncf, ns.len() as int);
}

/// The path hash does not depend on slash direction: turning any forward
/// slashes into backslashes leaves the hash unchanged.
pub proof fn lemma_hash_slash_insensitive(s: Seq<u8>)
    ensures
        jx_hash(s) == jx_hash(Seq::new(s.len(), |i: int| slash_fold(s[i]))),
{
    let sf = Seq::new(s.len(), |i: int| slash_fold(s[i]));
    assert(needs_leading_backslash(s) == needs_leading_backslash(sf));
    assert(normalize_path_bytes(s) =~= normalize_path_bytes(sf));
}

/// Errors opening an archive: a wrong magic word, or a header or index
/// table cut short.
#[derive(Debug, Clone, Copy, PartialEq, Eq, Structural)]
pub enum ArchiveFormatError {
    BadSignature,
    Truncated,
}

/// What header a 24-byte prefix parses to, or why it is rejected.
pub open spec fn spec_parse_header(b: Seq<u8>) -> Result<PakHeader, ArchiveFormatError> {
    if b.len() < 24 {
        Err(ArchiveFormatError::Truncated)
    } else if le32_at(b, 0) != PACK_SIGNATURE {
        Err(ArchiveFormatError::BadSignature)
    } else {
        Ok(PakHeader {
            signature: le32_at(b, 0),
            count: le32_at(b, 4),
            index_offset: le32_at(b, 8),
            data_offset: le32_at(b, 12),
            crc32: le32_at(b, 16),
        })
    }
}

impl PakHeader {
    /// Parses the 24-byte archive header (the 12 reserved trailing bytes
    /// carry no information) and verifies the signature.
    pub fn parse(buf: &[u8]) -> (r: Result<PakHeader, ArchiveFormatError>)
        ensures
            r == spec_parse_header(buf@),
    {
        if buf.len() < 24 {
            return Err(ArchiveFormatError::Truncated);
        }
        let signature = crate::bytes::read_u32_at(buf, 0);
        if signature != PACK_SIGNATURE {
            return Err(ArchiveFormatError::BadSignature);
        }
        Ok(PakHeader {
            signature,
            count: crate::bytes::read_u32_at(buf, 4),
            index_offset: crate::bytes::read_u32_at(buf, 8),
            data_offset: crate::bytes::read_u32_at(buf, 12),
            crc32: crate::bytes::read_u32_at(buf, 16),
        })
    }
}

/// The `i`-th 16-byte record of an index table.
pub open spec fn spec_entry_at(b: Seq<u8>, i: int) -> PakEntry {
    PakEntry {
        id: le32_at(b, 16 * i),
        offset: le32_at(b, 16 * i + 4),
        original_size: le32_at(b, 16 * i + 8),
        compress_flag: le32_at(b, 16 * i + 12),
    }
}

/// The hash-to-entry mapping after loading the first `n` index records:
/// a later record with the same id overwrites an earlier one, mirroring
/// the legacy packer.
pub open spec fn spec_index_map(b: Seq<u8>, n: int) -> Map<u32, PakEntry>
    decreases n,
{
    if n <= 0 {
        Map::empty()
    } else {
        spec_index_map(b, n - 1).insert(spec_entry_at(b, n - 1).id, spec_entry_at(b, n - 1))
    }
}

/// An opened archive: its header and the hash-to-entry table, built once
/// and never mutated. File I/O stays with the caller, who feeds the
/// header and index bytes in and reads payload bytes out.
pub struct PakReader {
    pub header: PakHeader,
    pub index_map: HashMap<u32, PakEntry>,
}

impl PakReader {
    /// The entry table as a mapping from path hash to entry.
    pub open spec fn index(&self) -> Map<u32, PakEntry> {
        self.index_map@
    }

    /// Builds the reader from a parsed header and the raw bytes of the
    /// index table (read from `header.index_offset`). Fails when the
    /// table holds fewer than `header.count` records; later records with
    /// a duplicate id overwrite earlier ones.
    pub fn new(header: PakHeader, index_buf: &[u8]) -> (r: Result<PakReader, ArchiveFormatError>)
        requires
            header.signature == PACK_SIGNATURE,
        ensures
            match r {
                Ok(p) => {
                    &&& p.header == header
                    &&& header.count as int * 16 <= index_buf@.len()
                    &&& p.index() == spec_index_map(index_buf@, header.count as int)
                },
                Err(e) => {
                    &&& e == ArchiveFormatError::Truncated
                    &&& index_buf@.len() < header.count as int * 16
                },
            },
    {
        broadcast use vstd::std_specs::hash::group_hash_axioms;

        let blen: usize = index_buf.len();
        if (blen as u64) < (header.count as u64) * 16 {
            return Err(ArchiveFormatError::Truncated);
        }
        let mut index_map: HashMap<u32, PakEntry> = HashMap::new();
        let count = header.count;
        let mut i: u32 = 0;
        while i < count
            invariant
                i <= count,
                count as int * 16 <= index_buf@.len(),
                index_buf@.len() <= usize::MAX,
                index_map@ == spec_index_map(index_buf@, i as int),
            decreases count - i,
        {
            let base: usize = (i as usize) * 16;
            let entry = PakEntry {
                id: crate::bytes::read_u32_at(index_buf, base),
                offset: crate::bytes::read_u32_at(index_buf, base + 4),
                original_size: crate::bytes::read_u32_at(index_buf, base + 8),
                compress_flag: crate::bytes::read_u32_at(index_buf, base + 12),
            };
            proof {
                broadcast use vstd::std_specs::hash::group_hash_axioms;

                assert(entry == spec_entry_at(index_buf@, i as int));
            }
            index_map.insert(entry.id, entry);
            i = i + 1;
        }
        Ok(PakReader { header, index_map })
    }

    /// Looks a path up in the loaded index by its hash. Two paths with
    /// equal hashes are indistinguishable by design; a miss is the
    /// expected "not found" outcome, not an error.
    pub fn find_file(&self, path: &str) -> (r: Option<&PakEntry>)
        ensures
            match r {
                Some(e) => self.index().contains_key(jx_hash(path.spec_bytes())) && *e
                    == self.index()[jx_hash(path.spec_bytes())],
                None => !self.index().contains_key(jx_hash(path.spec_bytes())),
            },
    {
        broadcast use vstd::std_specs::hash::group_hash_axioms;

        let target_hash = jx_file_name_hash(path);
        self.index_map.get(&target_hash)
    }

    /// Looks an already-computed hash key up in the loaded index.
    pub fn find_by_id(&self, id: u32) -> (r: Option<&PakEntry>)
        ensures
            match r {
                Some(e) => self.index().contains_key(id) && *e == self.index()[id],
                None => !self.index().contains_key(id),
            },
    {
        broadcast use vstd::std_specs::hash::group_hash_axioms;

        self.index_map.get(&id)
    }
}

/// Every loaded record is present in the index, and one that no later
/// record shadows is found exactly as it was stored: collisions resolve
/// to "last entry wins".
pub proof fn lemma_index_map_round_trip(b: Seq<u8>, n: int, i: int)
    requires
        0 <= i < n,
    ensures
        spec_index_map(b, n).contains_key(spec_entry_at(b, i).id),
        (forall|j: int|
            i < j < n ==> spec_entry_at(b, j).id != spec_entry_at(b, i).id) ==> spec_index_map(
            b,
            n,
        )[spec_entry_at(b, i).id] == spec_entry_at(b, i),
    decreases n,
{
    if i == n - 1 {
    } else {
        lemma_index_map_round_trip(b, n - 1, i);
    }
}

/// The index holds nothing that was not loaded: every key in the map is
/// the id of some record among the first `n`.
pub proof fn lemma_index_map_complete(b: Seq<u8>, n: int, id: u32)
    requires
        n >= 0,
        spec_index_map(b, n).contains_key(id),
    ensures
        exists|i: int| 0 <= i < n && #[trigger] spec_entry_at(b, i).id == id,
    decreases n,
{
    if n > 0 {
        if spec_entry_at(b, n - 1).id == id {
            assert(0 <= n - 1 < n && spec_entry_at(b, n - 1).id == id);
        } else {
            lemma_index_map_complete(b, n - 1, id);
        }
    }
}

/// A payload as handed back to the caller: stored bytes returned
/// unchanged, a decompressed body, or raw bytes of a compression type
/// this decoder does not handle, tagged so the caller cannot mistake
/// them for decoded data.
#[derive(Debug, Clone, PartialEq, Eq)]
pub enum EntryPayload {
    Stored(Vec<u8>),
    Decompressed(Vec<u8>),
    Unsupported(Vec<u8>),
}

/// What decoding an entry's stored bytes yields, as a function of the
/// compression type, the stored bytes and the declared original size.
pub open spec fn spec_decode_entry(
    ctype: u8,
    stored: Seq<u8>,
    original_size: u32,
) -> Result<(int, Seq<u8>), DecompressError> {
    if ctype == 0 {
        Ok((0int, stored))
    } else if ctype == 1 {
        match nrv2b_spec(stored, original_size as nat) {
            Ok(d) => Ok((1int, d)),
            Err(e) => Err(e),
        }
    } else {
        Ok((2int, stored))
    }
}

/// Decodes the stored bytes of one entry. Type 0 payloads come back
/// unchanged, type 1 payloads run through the NRV2B decoder with the
/// entry's original size as the declared length, and any other type is
/// returned raw and tagged `Unsupported`. Fails exactly when the
/// decoder fails.
pub fn decode_entry_data(entry: &PakEntry, stored: Vec<u8>) -> (r: Result<
    EntryPayload,
    DecompressError,
>)
    ensures
        match r {
            Ok(p) => {
                let ctype = entry.spec_compression_type();
                match p {
                    EntryPayload::Stored(v) => ctype == 0 && v@ == stored@
                        && spec_decode_entry(ctype, stored@, entry.original_size) == Ok::<
                        (int, Seq<u8>),
                        DecompressError,
                    >((0int, v@)),
                    EntryPayload::Decompressed(v) => ctype == 1 && spec_decode_entry(
                        ctype,
                        stored@,
                        entry.original_size,
                    ) == Ok::<(int, Seq<u8>), DecompressError>((1int, v@)),
                    EntryPayload::Unsupported(v) => ctype >= 2 && v@ == stored@,
                }
            },
            Err(e) => entry.spec_compression_type() == 1 && spec_decode_entry(
                1u8,
                stored@,
                entry.original_size,
            ) == Err::<(int, Seq<u8>), DecompressError>(e),
        },
{
    let ctype = entry.get_compression_type();
    if ctype == 0 {
        Ok(EntryPayload::Stored(stored))
    } else if ctype == 1 {
        let dst_len = entry.original_size as usize;
        match crate::nrv2b::nrv2b_decompress_8(stored.as_slice(), dst_len) {
            Ok(decoded) => Ok(EntryPayload::Decompressed(decoded)),
            Err(e) => Err(e),
        }
    } else {
        Ok(EntryPayload::Unsupported(stored))
    }
}

/// A zero-entry archive opens successfully with an empty index: loading
/// no records yields the empty map, whatever the index bytes hold.
pub proof fn lemma_zero_entry_index(b: Seq<u8>)
    ensures
        spec_index_map(b, 0) =~= Map::<u32, PakEntry>::empty(),
{
}

} // verus!
