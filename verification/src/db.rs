//! Database file codec: the 100-byte header and the full page map, in both
//! directions. Decoding validates the magic string, the text-encoding word
//! and the page layout; encoding is its inverse, filling gaps in the page map
//! with zeroed pages.

use vstd::prelude::*;
use std::collections::HashMap;
use crate::bytes::{be16_at, be32_at, read_bytes, read_u16, read_u32, u16_bytes, u32_bytes,
    write_byte, write_bytes, write_u16, write_u32};
use crate::error::{Error, ErrorKind};
use crate::types::{magic_string, magic_string_bytes, spec_encoding_word, Db, DbHeader, Page,
    TextEncoding};

verus! {

broadcast use vstd::std_specs::hash::group_hash_axioms;

/// The 16-bit page-size field as written to disk: 65536 is spelled as 1,
/// every other size verbatim.
pub open spec fn wire_page_size(ps: u32) -> u16 {
    if ps == 65536 {
        1
    } else {
        ps as u16
    }
}

/// The declared page size spelled by the on-wire 16-bit field: 1 stands for
/// 65536, every other value for itself.
pub open spec fn norm_page_size(w: u16) -> u32 {
    if w == 1 {
        65536
    } else {
        w as u32
    }
}

/// Twenty reserved zero bytes.
pub open spec fn reserved_zeros() -> Seq<u8> {
    Seq::new(20, |i: int| 0u8)
}

/// The 100 bytes that spell a database header.
pub open spec fn spec_db_header_bytes(h: DbHeader) -> Seq<u8> {
    magic_string() + u16_bytes(wire_page_size(h.page_size))
        + seq![
        h.file_format_write_version,
        h.file_format_read_version,
        0u8,
        h.max_embedded_payload_frac,
        h.min_embedded_payload_frac,
        h.leaf_payload_frac,
    ] + u32_bytes(h.file_change_counter) + u32_bytes(h.db_size) + u32_bytes(
        h.page_num_first_freelist,
    ) + u32_bytes(h.page_count_freelist) + u32_bytes(h.schema_cookie) + u32_bytes(
        h.schema_format_number,
    ) + u32_bytes(h.default_page_cache_size) + u32_bytes(h.page_num_largest_root_btree)
        + u32_bytes(spec_encoding_word(h.text_encoding)) + u32_bytes(h.user_version) + u32_bytes(
        h.vaccum_mode,
    ) + u32_bytes(h.app_id) + reserved_zeros() + u32_bytes(h.version_valid_for) + u32_bytes(
        h.sqlite_version,
    )
}

/// The header fields spelled by the first 100 bytes of `b`.
pub open spec fn spec_db_header_fields(b: Seq<u8>) -> DbHeader {
    DbHeader {
        page_size: norm_page_size(be16_at(b, 16)),
        file_format_write_version: b[18],
        file_format_read_version: b[19],
        max_embedded_payload_frac: b[21],
        min_embedded_payload_frac: b[22],
        leaf_payload_frac: b[23],
        file_change_counter: be32_at(b, 24),
        db_size: be32_at(b, 28),
        page_num_first_freelist: be32_at(b, 32),
        page_count_freelist: be32_at(b, 36),
        schema_cookie: be32_at(b, 40),
        schema_format_number: be32_at(b, 44),
        default_page_cache_size: be32_at(b, 48),
        page_num_largest_root_btree: be32_at(b, 52),
        text_encoding: spec_text_encoding(be32_at(b, 56)),
        user_version: be32_at(b, 60),
        vaccum_mode: be32_at(b, 64),
        app_id: be32_at(b, 68),
        version_valid_for: be32_at(b, 92),
        sqlite_version: be32_at(b, 96),
    }
}

/// The text encoding a wire word maps to; meaningful for words 0 to 3 only.
pub open spec fn spec_text_encoding(w: u32) -> TextEncoding {
    if w == 0 {
        TextEncoding::Unspecified
    } else if w == 1 {
        TextEncoding::UTF8
    } else if w == 2 {
        TextEncoding::UTF16le
    } else {
        TextEncoding::UTF16be
    }
}

/// Parses the first 100 bytes of `b` as a database header: `EndOfInput` when
/// fewer than 100 bytes remain, `InvalidMagic` when the magic string is
/// absent, `UnsupportedEncoding` for a text-encoding word above 3.
pub open spec fn spec_parse_db_header(b: Seq<u8>) -> Result<DbHeader, ErrorKind> {
    if b.len() < 100 {
        Err(ErrorKind::EndOfInput)
    } else if b.subrange(0, 16) != magic_string() {
        Err(ErrorKind::InvalidMagic)
    } else if be32_at(b, 56) > 3 {
        Err(ErrorKind::UnsupportedEncoding)
    } else {
        Ok(spec_db_header_fields(b))
    }
}

/// True exactly when `b` starts with the 16-byte magic string.
fn has_magic(b: &[u8]) -> (r: bool)
    requires
        b@.len() >= 16,
    ensures
        r == (b@.subrange(0, 16) == magic_string()),
{
    let r = b[0] == 0x53 && b[1] == 0x51 && b[2] == 0x4c && b[3] == 0x69 && b[4] == 0x74 && b[5]
        == 0x65 && b[6] == 0x20 && b[7] == 0x66 && b[8] == 0x6f && b[9] == 0x72 && b[10] == 0x6d
        && b[11] == 0x61 && b[12] == 0x74 && b[13] == 0x20 && b[14] == 0x33 && b[15] == 0x00;
    proof {
        if r {
            assert(b@.subrange(0, 16) =~= magic_string());
        } else {
            assert(b@.subrange(0, 16) != magic_string()) by {
                if b@.subrange(0, 16) == magic_string() {
                    assert(forall|i: int|
                        0 <= i < 16 ==> b@[i] == #[trigger] b@.subrange(0, 16)[i]);
                }
            }
        }
    }
    r
}

/// Decodes a database header from the first 100 bytes of `input`. Fails with
/// `EndOfInput`, `InvalidMagic` or `UnsupportedEncoding` exactly as
/// `spec_parse_db_header` says.
pub fn decode_header(input: &[u8]) -> (r: Result<DbHeader, Error>)
    ensures
        match r {
            Ok(h) => spec_parse_db_header(input@) == Ok::<DbHeader, ErrorKind>(h),
            Err(e) => spec_parse_db_header(input@) == Err::<DbHeader, ErrorKind>(e.kind),
        },
{
    if input.len() < 100 {
        return Err(Error::new(ErrorKind::EndOfInput, "database header needs 100 bytes"));
    }
    if !has_magic(input) {
        return Err(Error::new(ErrorKind::InvalidMagic, "database magic string not found"));
    }
    let enc_word = match read_u32(input, 56) {
        Ok(v) => v,
        Err(e) => { return Err(e) },
    };
    let text_encoding = if enc_word == 0 {
        TextEncoding::Unspecified
    } else if enc_word == 1 {
        TextEncoding::UTF8
    } else if enc_word == 2 {
        TextEncoding::UTF16le
    } else if enc_word == 3 {
        TextEncoding::UTF16be
    } else {
        return Err(Error::new(ErrorKind::UnsupportedEncoding, "unsupported text encoding word"));
    };
    let wire_ps = match read_u16(input, 16) {
        Ok(v) => v,
        Err(e) => { return Err(e) },
    };
    let page_size: u32 = if wire_ps == 1 {
        65536
    } else {
        wire_ps as u32
    };
    let file_change_counter = match read_u32(input, 24) {
        Ok(v) => v,
        Err(e) => { return Err(e) },
    };
    let db_size = match read_u32(input, 28) {
        Ok(v) => v,
        Err(e) => { return Err(e) },
    };
    let page_num_first_freelist = match read_u32(input, 32) {
        Ok(v) => v,
        Err(e) => { return Err(e) },
    };
    let page_count_freelist = match read_u32(input, 36) {
        Ok(v) => v,
        Err(e) => { return Err(e) },
    };
    let schema_cookie = match read_u32(input, 40) {
        Ok(v) => v,
        Err(e) => { return Err(e) },
    };
    let schema_format_number = match read_u32(input, 44) {
        Ok(v) => v,
        Err(e) => { return Err(e) },
    };
    let default_page_cache_size = match read_u32(input, 48) {
        Ok(v) => v,
        Err(e) => { return Err(e) },
    };
    let page_num_largest_root_btree = match read_u32(input, 52) {
        Ok(v) => v,
        Err(e) => { return Err(e) },
    };
    let user_version = match read_u32(input, 60) {
        Ok(v) => v,
        Err(e) => { return Err(e) },
    };
    let vaccum_mode = match read_u32(input, 64) {
        Ok(v) => v,
        Err(e) => { return Err(e) },
    };
    let app_id = match read_u32(input, 68) {
        Ok(v) => v,
        Err(e) => { return Err(e) },
    };
    let version_valid_for = match read_u32(input, 92) {
        Ok(v) => v,
        Err(e) => { return Err(e) },
    };
    let sqlite_version = match read_u32(input, 96) {
        Ok(v) => v,
        Err(e) => { return Err(e) },
    };
    Ok(
        DbHeader {
            page_size,
            file_format_write_version: input[18],
            file_format_read_version: input[19],
            max_embedded_payload_frac: input[21],
            min_embedded_payload_frac: input[22],
            leaf_payload_frac: input[23],
            file_change_counter,
            db_size,
            page_num_first_freelist,
            page_count_freelist,
            schema_cookie,
            schema_format_number,
            default_page_cache_size,
            page_num_largest_root_btree,
            text_encoding,
            user_version,
            vaccum_mode,
            app_id,
            version_valid_for,
            sqlite_version,
        },
    )
}

/// Appends `n` zero bytes.
fn write_zeros(writer: &mut Vec<u8>, n: usize)
    ensures
        final(writer)@ == old(writer)@ + Seq::new(n as nat, |i: int| 0u8),
{
    let mut i: usize = 0;
    while i < n
        invariant
            i <= n,
            writer@ == old(writer)@ + Seq::new(i as nat, |j: int| 0u8),
        decreases n - i,
    {
        writer.push(0);
        assert(writer@ =~= old(writer)@ + Seq::new((i + 1) as nat, |j: int| 0u8));
        i = i + 1;
    }
}

/// Emits the 100 header bytes of `header` into `writer`.
fn write_header(writer: &mut Vec<u8>, header: &DbHeader)
    requires
        header.wf(),
    ensures
        final(writer)@ == old(writer)@ + spec_db_header_bytes(*header),
{
    let magic = magic_string_bytes();
    write_bytes(writer, magic.as_slice());
    let wire_ps: u16 = if header.page_size == 65536 {
        1
    } else {
        header.page_size as u16
    };
    write_u16(writer, wire_ps);
    write_byte(writer, header.file_format_write_version);
    write_byte(writer, header.file_format_read_version);
    write_byte(writer, 0);
    write_byte(writer, header.max_embedded_payload_frac);
    write_byte(writer, header.min_embedded_payload_frac);
    write_byte(writer, header.leaf_payload_frac);
    write_u32(writer, header.file_change_counter);
    write_u32(writer, header.db_size);
    write_u32(writer, header.page_num_first_freelist);
    write_u32(writer, header.page_count_freelist);
    write_u32(writer, header.schema_cookie);
    write_u32(writer, header.schema_format_number);
    write_u32(writer, header.default_page_cache_size);
    write_u32(writer, header.page_num_largest_root_btree);
    let enc_word: u32 = match header.text_encoding {
        TextEncoding::Unspecified => 0,
        TextEncoding::UTF8 => 1,
        TextEncoding::UTF16le => 2,
        TextEncoding::UTF16be => 3,
    };
    write_u32(writer, enc_word);
    write_u32(writer, header.user_version);
    write_u32(writer, header.vaccum_mode);
    write_u32(writer, header.app_id);
    write_zeros(writer, 20);
    write_u32(writer, header.version_valid_for);
    write_u32(writer, header.sqlite_version);
    assert(final(writer)@ =~= old(writer)@ + spec_db_header_bytes(*header));
}

/// Decoding the emitted bytes of any well-formed header yields the header
/// back: the value round trip of the header codec.
#[verifier::rlimit(100)]
pub proof fn lemma_db_header_roundtrip(h: DbHeader)
    requires
        h.wf(),
    ensures
        spec_parse_db_header(spec_db_header_bytes(h)) == Ok::<DbHeader, ErrorKind>(h),
{
    let b = spec_db_header_bytes(h);
    assert(b.len() == 100);
    assert(b.subrange(0, 16) =~= magic_string());
    assert(b.subrange(16, 18) =~= u16_bytes(wire_page_size(h.page_size)));
    crate::bytes::lemma_u16_bytes_roundtrip(wire_page_size(h.page_size));
    assert(be16_at(b, 16) == wire_page_size(h.page_size));
    assert(b.subrange(18, 24) =~= seq![
        h.file_format_write_version,
        h.file_format_read_version,
        0u8,
        h.max_embedded_payload_frac,
        h.min_embedded_payload_frac,
        h.leaf_payload_frac,
    ]);
    assert(b.subrange(24, 28) =~= u32_bytes(h.file_change_counter));
    assert(b.subrange(28, 32) =~= u32_bytes(h.db_size));
    assert(b.subrange(32, 36) =~= u32_bytes(h.page_num_first_freelist));
    assert(b.subrange(36, 40) =~= u32_bytes(h.page_count_freelist));
    assert(b.subrange(40, 44) =~= u32_bytes(h.schema_cookie));
    assert(b.subrange(44, 48) =~= u32_bytes(h.schema_format_number));
    assert(b.subrange(48, 52) =~= u32_bytes(h.default_page_cache_size));
    assert(b.subrange(52, 56) =~= u32_bytes(h.page_num_largest_root_btree));
    assert(b.subrange(56, 60) =~= u32_bytes(spec_encoding_word(h.text_encoding)));
    assert(b.subrange(60, 64) =~= u32_bytes(h.user_version));
    assert(b.subrange(64, 68) =~= u32_bytes(h.vaccum_mode));
    assert(b.subrange(68, 72) =~= u32_bytes(h.app_id));
    assert(b.subrange(92, 96) =~= u32_bytes(h.version_valid_for));
    assert(b.subrange(96, 100) =~= u32_bytes(h.sqlite_version));
    lemma_be32_fields(b, 24, h.file_change_counter);
    lemma_be32_fields(b, 28, h.db_size);
    lemma_be32_fields(b, 32, h.page_num_first_freelist);
    lemma_be32_fields(b, 36, h.page_count_freelist);
    lemma_be32_fields(b, 40, h.schema_cookie);
    lemma_be32_fields(b, 44, h.schema_format_number);
    lemma_be32_fields(b, 48, h.default_page_cache_size);
    lemma_be32_fields(b, 52, h.page_num_largest_root_btree);
    lemma_be32_fields(b, 56, spec_encoding_word(h.text_encoding));
    lemma_be32_fields(b, 60, h.user_version);
    lemma_be32_fields(b, 64, h.vaccum_mode);
    lemma_be32_fields(b, 68, h.app_id);
    lemma_be32_fields(b, 92, h.version_valid_for);
    lemma_be32_fields(b, 96, h.sqlite_version);
    assert(spec_db_header_fields(b) == h);
}

/// If four bytes of `b` spell out `v`, reading a big-endian word there gives
/// `v` back.
pub(crate) proof fn lemma_be32_fields(b: Seq<u8>, off: int, v: u32)
    requires
        0 <= off,
        off + 4 <= b.len(),
        b.subrange(off, off + 4) == u32_bytes(v),
    ensures
        be32_at(b, off) == v,
{
    assert(b[off] == u32_bytes(v)[0]);
    assert(b[off + 1] == u32_bytes(v)[1]);
    assert(b[off + 2] == u32_bytes(v)[2]);
    assert(b[off + 3] == u32_bytes(v)[3]);
    crate::bytes::lemma_u32_bytes_roundtrip(v);
}

/// Re-encoding a decoded header reproduces its 100 source bytes, provided
/// the source holds zeros in the two reserved regions, as the encoder emits.
pub proof fn lemma_db_header_bytes_roundtrip(b: Seq<u8>)
    requires
        b.len() == 100,
        spec_parse_db_header(b) is Ok,
        b[20] == 0,
        forall|i: int| 72 <= i < 92 ==> b[i] == 0,
    ensures
        spec_db_header_bytes(spec_parse_db_header(b)->Ok_0) == b,
{
    let h = spec_parse_db_header(b)->Ok_0;
    assert(h == spec_db_header_fields(b));
    let w = be16_at(b, 16);
    assert(wire_page_size(h.page_size) == w) by {
        if w != 1 {
            assert(w as u32 <= 65535);
        }
    }
    crate::bytes::lemma_be16_roundtrip(b[16], b[17]);
    assert(u16_bytes(w) == seq![b[16], b[17]]);
    crate::bytes::lemma_be32_roundtrip(b[24], b[25], b[26], b[27]);
    crate::bytes::lemma_be32_roundtrip(b[28], b[29], b[30], b[31]);
    crate::bytes::lemma_be32_roundtrip(b[32], b[33], b[34], b[35]);
    crate::bytes::lemma_be32_roundtrip(b[36], b[37], b[38], b[39]);
    crate::bytes::lemma_be32_roundtrip(b[40], b[41], b[42], b[43]);
    crate::bytes::lemma_be32_roundtrip(b[44], b[45], b[46], b[47]);
    crate::bytes::lemma_be32_roundtrip(b[48], b[49], b[50], b[51]);
    crate::bytes::lemma_be32_roundtrip(b[52], b[53], b[54], b[55]);
    crate::bytes::lemma_be32_roundtrip(b[56], b[57], b[58], b[59]);
    crate::bytes::lemma_be32_roundtrip(b[60], b[61], b[62], b[63]);
    crate::bytes::lemma_be32_roundtrip(b[64], b[65], b[66], b[67]);
    crate::bytes::lemma_be32_roundtrip(b[68], b[69], b[70], b[71]);
    crate::bytes::lemma_be32_roundtrip(b[92], b[93], b[94], b[95]);
    crate::bytes::lemma_be32_roundtrip(b[96], b[97], b[98], b[99]);
    assert(spec_encoding_word(h.text_encoding) == be32_at(b, 56));
    assert(spec_db_header_bytes(h) =~= b);
}

/// The page-size sentinel survives a decode-encode pass: the on-wire 16-bit
/// value 1 decodes to 65536 and is re-emitted as 1; every other value is
/// carried verbatim.
pub proof fn lemma_page_size_normalisation(b: Seq<u8>)
    requires
        spec_parse_db_header(b) is Ok,
    ensures
        spec_parse_db_header(b)->Ok_0.page_size == 65536 <==> be16_at(b, 16) == 1,
        wire_page_size(spec_parse_db_header(b)->Ok_0.page_size) == be16_at(b, 16),
{
    let w = be16_at(b, 16);
    if w != 1 {
        assert(w as u32 <= 65535);
    }
}

/// Encodes a database header into its 100 on-disk bytes.
pub fn encode_header(header: &DbHeader) -> (r: Result<Vec<u8>, Error>)
    requires
        header.wf(),
    ensures
        r is Ok,
        r matches Ok(v) ==> v@ == spec_db_header_bytes(*header),
{
    let mut buff: Vec<u8> = Vec::new();
    write_header(&mut buff, header);
    Ok(buff)
}

/// The page map a database file spells: page `k` of `n` is the `ps` bytes
/// starting at `(k - 1) * ps`; page 1 starts with the 100 header bytes.
pub open spec fn spec_db_pages(b: Seq<u8>, ps: int, n: u32) -> Map<u32, Seq<u8>> {
    Map::new(|k: u32| 1 <= k <= n, |k: u32| b.subrange((k - 1) * ps, k * ps))
}

/// Decodes a whole database file: the header, then dense pages 1 to the
/// declared count. `EndOfInput` when even the first page is cut short,
/// `TruncatedFile` when the remainder is not exactly the declared pages.
pub open spec fn spec_decode_db(b: Seq<u8>) -> Result<(DbHeader, Map<u32, Seq<u8>>), ErrorKind> {
    match spec_parse_db_header(b) {
        Err(k) => Err(k),
        Ok(h) => {
            let ps = h.page_size as int;
            if ps < 100 || b.len() < ps {
                Err(ErrorKind::EndOfInput)
            } else if h.db_size == 0 || b.len() != ps * h.db_size {
                Err(ErrorKind::TruncatedFile)
            } else {
                Ok((h, spec_db_pages(b, ps, h.db_size)))
            }
        },
    }
}

/// Decodes a complete database file into its header and page map, exactly as
/// `spec_decode_db` says; a decoded database is well formed and holds its
/// first page.
pub fn decode(input: &[u8]) -> (r: Result<Db, Error>)
    ensures
        match r {
            Ok(db) => {
                &&& spec_decode_db(input@) == Ok::<(DbHeader, Map<u32, Seq<u8>>), ErrorKind>(
                    (db.header, db.page_map()),
                )
                &&& db.wf()
                &&& db.pages@.contains_key(1)
                &&& db.header.db_size >= 1
            },
            Err(e) => spec_decode_db(input@) == Err::<(DbHeader, Map<u32, Seq<u8>>), ErrorKind>(
                e.kind,
            ),
        },
{
    let header = match decode_header(input) {
        Ok(h) => h,
        Err(e) => { return Err(e) },
    };
    let ps = header.page_size;
    if ps < 100 || (input.len() as u64) < ps as u64 {
        return Err(Error::new(ErrorKind::EndOfInput, "file shorter than one whole page"));
    }
    let db_size = header.db_size;
    proof {
        assert(ps as int <= 65536);
        vstd::arithmetic::mul::lemma_mul_upper_bound(
            ps as int,
            65536,
            header.db_size as int,
            0xffff_ffff,
        );
    }
    if db_size == 0 || input.len() as u64 != ps as u64 * db_size as u64 {
        return Err(
            Error::new(ErrorKind::TruncatedFile, "file is not the declared run of whole pages"),
        );
    }
    let mut pages: HashMap<u32, Page> = HashMap::new();
    let mut k: u32 = 0;
    let mut off: usize = 0;
    while k < db_size
        invariant
            k <= db_size,
            off as int == k as int * ps as int,
            100 <= ps <= 65536,
            input@.len() == ps as int * db_size as int,
            input@.len() <= usize::MAX,
            forall|j: u32| pages@.contains_key(j) <==> 1 <= j <= k,
            forall|j: u32|
                1 <= j <= k ==> (#[trigger] pages@[j])@ == input@.subrange(
                    (j - 1) * ps as int,
                    j * ps as int,
                ),
        decreases db_size - k,
    {
        proof {
            assert((k as int + 1) * ps as int == k as int * ps as int + ps as int) by (nonlinear_arith);
            assert((k as int + 1) * ps as int <= db_size as int * ps as int) by (nonlinear_arith)
                requires
                    k as int + 1 <= db_size as int,
                    ps as int >= 0,
            ;
            assert(db_size as int * ps as int == ps as int * db_size as int) by (nonlinear_arith);
        }
        let page = match read_bytes(input, off, ps as usize) {
            Ok(p) => p,
            Err(e) => { return Err(e) },
        };
        pages.insert(k + 1, page);
        off = off + ps as usize;
        k = k + 1;
    }
    let db = Db { header, pages };
    proof {
        let pm = db.page_map();
        let sp = spec_db_pages(input@, ps as int, db_size);
        assert forall|j: u32| pm.contains_key(j) == sp.contains_key(j) by {
            assert(pm.contains_key(j) <==> db.pages@.contains_key(j));
        }
        assert(pm.dom() =~= sp.dom());
        assert forall|j: u32| #[trigger] pm.contains_key(j) implies pm[j] == sp[j] by {
            assert(db.pages@.contains_key(j));
            assert(pm[j] == db.pages@[j]@);
            assert(sp.contains_key(j));
        }
        assert(pm =~= sp);
        assert forall|j: u32| db.pages@.contains_key(j) implies (#[trigger] db.pages@[j])@.len()
            == ps by {
            assert(1 <= j as int <= db_size as int);
            assert((j - 1) * ps as int >= 0) by (nonlinear_arith)
                requires
                    j as int >= 1,
                    ps as int >= 0;
            assert(j as int * ps as int <= ps as int * db_size as int) by (nonlinear_arith)
                requires
                    1 <= j as int <= db_size as int,
                    ps as int >= 0;
            assert(j as int * ps as int - (j - 1) * ps as int == ps as int) by (nonlinear_arith);
        }
    }
    Ok(db)
}

/// A page of nothing but zeros.
pub open spec fn zero_page(ps: int) -> Seq<u8> {
    Seq::new(ps as nat, |i: int| 0u8)
}

/// What the encoder emits for page `k`: the stored image, or a zeroed page
/// where the map has a gap.
pub open spec fn spec_page_out(pages: Map<u32, Seq<u8>>, ps: int, k: u32) -> Seq<u8> {
    if pages.contains_key(k) {
        pages[k]
    } else {
        zero_page(ps)
    }
}

/// The emission of pages 2 to `n`, in order.
pub open spec fn spec_pages_tail(pages: Map<u32, Seq<u8>>, ps: int, n: int) -> Seq<u8>
    decreases n,
{
    if n < 2 {
        Seq::empty()
    } else {
        spec_pages_tail(pages, ps, n - 1) + spec_page_out(pages, ps, n as u32)
    }
}

/// The whole emission of a database: the header bytes, the rest of page 1,
/// then pages 2 to the declared count.
pub open spec fn spec_encode_db(h: DbHeader, pages: Map<u32, Seq<u8>>) -> Seq<u8> {
    spec_db_header_bytes(h) + pages[1u32].skip(100) + spec_pages_tail(
        pages,
        h.page_size as int,
        h.db_size as int,
    )
}

/// Encodes a database back into file bytes: the header overwrites the first
/// 100 bytes of page 1, pages follow in order, and gaps in the page map are
/// filled with zeroed pages. Fails exactly when page 1 is missing.
pub fn encode(db: &Db) -> (r: Result<Vec<u8>, Error>)
    requires
        db.wf(),
    ensures
        match r {
            Ok(v) => db.pages@.contains_key(1) && v@ == spec_encode_db(db.header, db.page_map()),
            Err(e) => !db.pages@.contains_key(1) && e.kind == ErrorKind::MissingPage,
        },
{
    let first = match db.pages.get(&1u32) {
        Some(p) => p,
        None => {
            return Err(Error::new(ErrorKind::MissingPage, "page 1 is missing"));
        },
    };
    let mut buff: Vec<u8> = Vec::new();
    write_header(&mut buff, &db.header);
    let rest = vstd::slice::slice_subrange(first.as_slice(), 100, first.len());
    write_bytes(&mut buff, rest);
    proof {
        assert(db.page_map()[1u32] == first@);
        assert(first@.subrange(100, first@.len() as int) =~= db.page_map()[1u32].skip(100));
        assert(spec_pages_tail(db.page_map(), db.header.page_size as int, 1) =~= Seq::<
            u8,
        >::empty());
        assert(buff@ =~= spec_db_header_bytes(db.header) + db.page_map()[1u32].skip(100)
            + spec_pages_tail(db.page_map(), db.header.page_size as int, 1));
    }
    let ps = db.header.page_size;
    let db_size = db.header.db_size;
    let mut k: u64 = 2;
    while k <= db_size as u64
        invariant
            2 <= k,
            k == 2 || k <= db_size as u64 + 1,
            ps == db.header.page_size,
            db_size == db.header.db_size,
            db.wf(),
            db.pages@.contains_key(1),
            buff@ == spec_db_header_bytes(db.header) + db.page_map()[1u32].skip(100)
                + spec_pages_tail(db.page_map(), ps as int, k as int - 1),
        decreases db_size as u64 + 1 - k,
    {
        match db.pages.get(&(k as u32)) {
            Some(p) => {
                write_bytes(&mut buff, p.as_slice());
                assert(p@ == spec_page_out(db.page_map(), ps as int, k as u32));
            },
            None => {
                write_zeros(&mut buff, ps as usize);
                assert(Seq::new(ps as nat, |i: int| 0u8) =~= spec_page_out(
                    db.page_map(),
                    ps as int,
                    k as u32,
                ));
            },
        }
        proof {
            assert(spec_pages_tail(db.page_map(), ps as int, k as int) == spec_pages_tail(
                db.page_map(),
                ps as int,
                k as int - 1,
            ) + spec_page_out(db.page_map(), ps as int, k as u32));
            assert(buff@ =~= spec_db_header_bytes(db.header) + db.page_map()[1u32].skip(100)
                + spec_pages_tail(db.page_map(), ps as int, k as int));
        }
        k = k + 1;
    }
    Ok(buff)
}

/// Header parsing looks only at the first 100 bytes: inputs that agree there
/// parse alike.
pub proof fn lemma_parse_sees_prefix(b1: Seq<u8>, b2: Seq<u8>)
    requires
        b1.len() >= 100,
        b2.len() >= 100,
        b1.subrange(0, 100) == b2.subrange(0, 100),
    ensures
        spec_parse_db_header(b1) == spec_parse_db_header(b2),
{
    assert forall|i: int| 0 <= i < 100 implies b1[i] == #[trigger] b2[i] by {
        assert(b1.subrange(0, 100)[i] == b1[i]);
        assert(b2.subrange(0, 100)[i] == b2[i]);
    }
    assert(b1.subrange(0, 16) =~= b2.subrange(0, 16));
    assert(spec_db_header_fields(b1) == spec_db_header_fields(b2));
}

/// The emission of pages 2 to `n` is `(n - 1)` whole pages long.
proof fn lemma_pages_tail_len(pages: Map<u32, Seq<u8>>, ps: int, n: int)
    requires
        ps >= 0,
        n >= 1,
        forall|k: u32| pages.contains_key(k) ==> (#[trigger] pages[k]).len() == ps,
    ensures
        spec_pages_tail(pages, ps, n).len() == (n - 1) * ps,
    decreases n,
{
    if n < 2 {
        assert((n - 1) * ps == 0) by (nonlinear_arith)
            requires
                n == 1;
    } else {
        lemma_pages_tail_len(pages, ps, n - 1);
        assert(spec_page_out(pages, ps, n as u32).len() == ps);
        assert((n - 2) * ps + ps == (n - 1) * ps) by (nonlinear_arith);
    }
}

/// Inside the emission of pages 2 to `n`, page `k` stands at its own offset.
proof fn lemma_pages_tail_index(pages: Map<u32, Seq<u8>>, ps: int, n: int, k: int)
    requires
        ps >= 0,
        2 <= k <= n,
        forall|j: u32| pages.contains_key(j) ==> (#[trigger] pages[j]).len() == ps,
    ensures
        spec_pages_tail(pages, ps, n).subrange((k - 2) * ps, (k - 1) * ps) == spec_page_out(
            pages,
            ps,
            k as u32,
        ),
    decreases n,
{
    lemma_pages_tail_len(pages, ps, n - 1);
    assert(spec_page_out(pages, ps, n as u32).len() == ps);
    if k == n {
        assert((n - 2) * ps + ps == (n - 1) * ps) by (nonlinear_arith);
        assert(spec_pages_tail(pages, ps, n).subrange((k - 2) * ps, (k - 1) * ps)
            =~= spec_page_out(pages, ps, k as u32));
    } else {
        lemma_pages_tail_index(pages, ps, n - 1, k);
        assert((k - 1) * ps <= (n - 2) * ps) by (nonlinear_arith)
            requires
                k - 1 <= n - 2,
                ps >= 0;
        assert((k - 2) * ps >= 0) by (nonlinear_arith)
            requires
                k >= 2,
                ps >= 0;
        assert(spec_pages_tail(pages, ps, n) == spec_pages_tail(pages, ps, n - 1) + spec_page_out(
            pages,
            ps,
            n as u32,
        ));
        assert(spec_pages_tail(pages, ps, n - 1).len() == (n - 2) * ps);
        let t1 = spec_pages_tail(pages, ps, n - 1);
        let out = spec_page_out(pages, ps, n as u32);
        assert((k - 1) * ps - (k - 2) * ps == ps) by (nonlinear_arith);
        lemma_concat_subrange_prefix(t1, out, (k - 2) * ps, (k - 1) * ps);
    }
}

/// A subrange that lies within the first operand of a concatenation reads
/// from that operand alone.
pub(crate) proof fn lemma_concat_subrange_prefix<T>(x: Seq<T>, y: Seq<T>, a: int, c: int)
    requires
        0 <= a <= c <= x.len(),
    ensures
        (x + y).subrange(a, c) == x.subrange(a, c),
{
    assert((x + y).subrange(a, c) =~= x.subrange(a, c));
}

/// Decoding the emission of a well-formed database yields the database back:
/// the value round trip of the database codec. Page 1 must reproduce the
/// header in its first 100 bytes, as the format demands of every database.
#[verifier::rlimit(100)]
pub proof fn lemma_db_roundtrip(h: DbHeader, pages: Map<u32, Seq<u8>>)
    requires
        h.wf(),
        h.db_size >= 1,
        forall|k: u32| pages.contains_key(k) <==> 1 <= k <= h.db_size,
        forall|k: u32| pages.contains_key(k) ==> (#[trigger] pages[k]).len() == h.page_size,
        pages[1u32].subrange(0, 100) == spec_db_header_bytes(h),
    ensures
        spec_decode_db(spec_encode_db(h, pages)) == Ok::<(DbHeader, Map<u32, Seq<u8>>), ErrorKind>(
            (h, pages),
        ),
{
    let ps = h.page_size as int;
    let n = h.db_size as int;
    let b = spec_encode_db(h, pages);
    let hdr = spec_db_header_bytes(h);
    let tail = spec_pages_tail(pages, ps, n);
    lemma_pages_tail_len(pages, ps, n);
    assert(pages.contains_key(1u32));
    assert(pages[1u32].len() == ps);
    assert(b.len() == 100 + (ps - 100) + (n - 1) * ps);
    assert(100 + (ps - 100) + (n - 1) * ps == ps * n) by (nonlinear_arith);
    assert(b.subrange(0, 100) =~= hdr);
    assert(hdr.subrange(0, 100) =~= hdr);
    lemma_db_header_roundtrip(h);
    lemma_parse_sees_prefix(b, hdr);
    assert(spec_parse_db_header(b) == Ok::<DbHeader, ErrorKind>(h));
    let dec = spec_db_pages(b, ps, h.db_size);
    assert forall|k: u32| 1 <= k <= h.db_size implies #[trigger] dec[k] == pages[k] by {
        assert(pages[1u32].len() == ps);
        assert(pages[1u32].skip(100).len() == ps - 100);
        if k == 1 {
            assert forall|i: int| 0 <= i < ps implies b.subrange(0, ps)[i] == pages[1u32][i] by {
                if i < 100 {
                    assert(b[i] == hdr[i]);
                    assert(pages[1u32].subrange(0, 100)[i] == pages[1u32][i]);
                } else {
                    assert(b[i] == pages[1u32].skip(100)[i - 100]);
                }
            }
            assert(b.subrange(0, ps) =~= pages[1u32]);
        } else {
            lemma_pages_tail_index(pages, ps, n, k as int);
            assert((k - 1) * ps == ps + (k as int - 2) * ps) by (nonlinear_arith);
            assert(k as int * ps == ps + (k as int - 1) * ps) by (nonlinear_arith);
            assert((k as int - 2) * ps >= 0) by (nonlinear_arith)
                requires
                    k as int >= 2,
                    ps >= 0;
            assert((k as int - 1) * ps <= (n - 1) * ps) by (nonlinear_arith)
                requires
                    k as int <= n,
                    ps >= 0;
            assert(b.subrange((k - 1) * ps, k as int * ps) =~= tail.subrange(
                (k as int - 2) * ps,
                (k as int - 1) * ps,
            ));
            assert(spec_page_out(pages, ps, k) == pages[k]);
        }
    }
    assert(dec =~= pages);
}

/// Re-encoding a decoded database reproduces the source bytes, provided the
/// source header holds zeros in its reserved regions, as the encoder emits.
#[verifier::rlimit(100)]
pub proof fn lemma_db_bytes_roundtrip(b: Seq<u8>)
    requires
        spec_decode_db(b) is Ok,
        b[20] == 0,
        forall|i: int| 72 <= i < 92 ==> b[i] == 0,
    ensures
        spec_encode_db(spec_decode_db(b)->Ok_0.0, spec_decode_db(b)->Ok_0.1) == b,
{
    let h = spec_decode_db(b)->Ok_0.0;
    let pages = spec_decode_db(b)->Ok_0.1;
    let ps = h.page_size as int;
    let n = h.db_size as int;
    let first100 = b.subrange(0, 100);
    assert(1 * ps <= ps * n) by (nonlinear_arith)
        requires
            1 <= n,
            ps >= 0;
    assert(first100.subrange(0, 100) =~= first100);
    lemma_parse_sees_prefix(b, first100);
    lemma_db_header_bytes_roundtrip(first100);
    assert(spec_db_header_bytes(h) == first100);
    assert(pages.contains_key(1u32));
    assert(pages[1u32] == b.subrange(0, ps));
    assert(pages[1u32].skip(100) =~= b.subrange(100, ps));
    assert forall|k: u32| pages.contains_key(k) implies (#[trigger] pages[k]).len() == ps by {
        lemma_page_len(b, ps, n, k as int);
    }
    lemma_tail_is_subrange(b, pages, ps, n, n);
    assert(spec_encode_db(h, pages) =~= b);
}

/// Each decoded page is one page long.
proof fn lemma_page_len(b: Seq<u8>, ps: int, n: int, k: int)
    requires
        ps >= 0,
        1 <= k <= n,
        b.len() == ps * n,
    ensures
        b.subrange((k - 1) * ps, k * ps).len() == ps,
{
    assert((k - 1) * ps >= 0) by (nonlinear_arith)
        requires
            k >= 1,
            ps >= 0;
    assert(k * ps == (k - 1) * ps + ps) by (nonlinear_arith);
    assert(k * ps <= n * ps) by (nonlinear_arith)
        requires
            k <= n,
            ps >= 0;
    assert(n * ps == ps * n) by (nonlinear_arith);
}

/// The emission of decoded pages 2 to `m` is exactly the corresponding run
/// of source bytes.
proof fn lemma_tail_is_subrange(b: Seq<u8>, pages: Map<u32, Seq<u8>>, ps: int, n: int, m: int)
    requires
        ps >= 0,
        1 <= m <= n,
        n < 0x1_0000_0000,
        b.len() == ps * n,
        forall|k: u32| pages.contains_key(k) <==> 1 <= k <= n,
        forall|k: u32| 1 <= k <= n ==> #[trigger] pages[k] == b.subrange((k - 1) * ps, k * ps),
    ensures
        spec_pages_tail(pages, ps, m) == b.subrange(ps, m * ps),
    decreases m,
{
    if m == 1 {
        assert(1 * ps <= n * ps) by (nonlinear_arith)
            requires
                1 <= n,
                ps >= 0;
        assert(n * ps == ps * n) by (nonlinear_arith);
        assert(spec_pages_tail(pages, ps, 1) =~= b.subrange(ps, ps));
    } else {
        lemma_tail_is_subrange(b, pages, ps, n, m - 1);
        assert(pages.contains_key(m as u32));
        assert(pages[m as u32] == b.subrange((m - 1) * ps, m * ps));
        assert((m - 1) * ps >= ps) by (nonlinear_arith)
            requires
                m >= 2,
                ps >= 0;
        assert(m * ps <= n * ps) by (nonlinear_arith)
            requires
                m <= n,
                ps >= 0;
        assert(n * ps == ps * n) by (nonlinear_arith);
        assert((m - 1) * ps + ps == m * ps) by (nonlinear_arith);
        assert(spec_pages_tail(pages, ps, m) == spec_pages_tail(pages, ps, m - 1) + spec_page_out(
            pages,
            ps,
            m as u32,
        ));
        assert(spec_page_out(pages, ps, m as u32) == pages[m as u32]);
        assert(spec_pages_tail(pages, ps, m) =~= b.subrange(ps, m * ps));
    }
}

} // verus!
