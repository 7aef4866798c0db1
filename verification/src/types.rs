//! Canonical in-memory shapes for the database file, its pages, the WAL and
//! its frames, together with the format's two-word streaming checksum.

use vstd::prelude::*;
use std::collections::HashMap;

verus! {

broadcast use vstd::std_specs::hash::group_hash_axioms;

/// First accepted WAL magic word: little-endian payload checksum convention.
pub const MAGIC_NUMBER_1: u32 = 0x377f0682;

/// Second accepted WAL magic word: big-endian payload checksum convention.
/// The encoder always emits this one.
pub const MAGIC_NUMBER_2: u32 = 0x377f0683;

/// The only WAL format version this library understands.
pub const SUPPORTED_FILE_FORMAT: u32 = 3007000;

/// A version tag written into fresh database headers.
pub const SQLITE_3_37_2_VERSION: u32 = 3038002;

/// The 16 bytes every database file must start with.
pub open spec fn magic_string() -> Seq<u8> {
    seq![
        0x53u8, 0x51u8, 0x4cu8, 0x69u8, 0x74u8, 0x65u8, 0x20u8, 0x66u8, 0x6fu8, 0x72u8, 0x6du8,
        0x61u8, 0x74u8, 0x20u8, 0x33u8, 0x00u8,
    ]
}

/// An owned copy of the 16-byte database magic string.
pub fn magic_string_bytes() -> (r: Vec<u8>)
    ensures
        r@ == magic_string(),
{
    let mut v: Vec<u8> = Vec::new();
    v.push(0x53);
    v.push(0x51);
    v.push(0x4c);
    v.push(0x69);
    v.push(0x74);
    v.push(0x65);
    v.push(0x20);
    v.push(0x66);
    v.push(0x6f);
    v.push(0x72);
    v.push(0x6d);
    v.push(0x61);
    v.push(0x74);
    v.push(0x20);
    v.push(0x33);
    v.push(0x00);
    assert(v@ =~= magic_string());
    v
}

/// One fixed-size page image.
pub type Page = Vec<u8>;

/// How text columns of records are encoded.
#[derive(Clone, Copy, Debug, PartialEq, Eq, Structural)]
pub enum TextEncoding {
    Unspecified,
    UTF8,
    UTF16le,
    UTF16be,
}

/// The 32-bit word that spells a text encoding on the wire.
pub open spec fn spec_encoding_word(e: TextEncoding) -> u32 {
    match e {
        TextEncoding::Unspecified => 0,
        TextEncoding::UTF8 => 1,
        TextEncoding::UTF16le => 2,
        TextEncoding::UTF16be => 3,
    }
}

/// The fields of the 100-byte database header, page size already normalised:
/// the on-wire 16-bit value 1 stands for 65536.
#[derive(Clone, Copy, Debug, PartialEq, Eq, Structural)]
pub struct DbHeader {
    pub page_size: u32,
    pub file_format_write_version: u8,
    pub file_format_read_version: u8,
    pub max_embedded_payload_frac: u8,
    pub min_embedded_payload_frac: u8,
    pub leaf_payload_frac: u8,
    pub file_change_counter: u32,
    pub db_size: u32,
    pub page_num_first_freelist: u32,
    pub page_count_freelist: u32,
    pub schema_cookie: u32,
    pub schema_format_number: u32,
    pub default_page_cache_size: u32,
    pub page_num_largest_root_btree: u32,
    pub text_encoding: TextEncoding,
    pub user_version: u32,
    pub vaccum_mode: u32,
    pub app_id: u32,
    pub version_valid_for: u32,
    pub sqlite_version: u32,
}

impl DbHeader {
    /// A header the encoder can spell faithfully: the page size fits the
    /// 16-bit field (with 65536 spelled as 1, and the raw value 1 never
    /// declared), and a whole page can hold the 100 header bytes.
    pub open spec fn wf(self) -> bool {
        &&& 100 <= self.page_size <= 65536
        &&& self.page_size != 65536 ==> self.page_size <= 65535
    }
}

/// A decoded database: its header and a map from 1-indexed page number to
/// page image.
#[derive(Debug)]
pub struct Db {
    pub header: DbHeader,
    pub pages: HashMap<u32, Page>,
}

impl Db {
    /// The page map as a mathematical map from page number to byte sequence.
    pub open spec fn page_map(self) -> Map<u32, Seq<u8>> {
        self.pages@.map_values(|p: Page| p@)
    }

    /// A database the encoder can spell: a well-formed header, and every
    /// page buffer exactly one declared page size long.
    pub open spec fn wf(self) -> bool {
        &&& self.header.wf()
        &&& forall|k: u32|
            self.pages@.contains_key(k) ==> (#[trigger] self.pages@[k])@.len()
                == self.header.page_size
    }
}

/// A decoded WAL: its header and the ordered list of frames.
#[derive(Clone, Debug)]
pub struct Wal {
    pub header: WalHeader,
    pub frames: Vec<WalFrame>,
}

/// The 32-byte WAL header.
#[derive(Clone, Copy, Debug, PartialEq, Eq, Structural)]
pub struct WalHeader {
    pub magic_number: u32,
    pub file_format: u32,
    pub page_size: u32,
    pub checkpoint_seq: u32,
    pub salt_1: u32,
    pub salt_2: u32,
    pub checksum_1: u32,
    pub checksum_2: u32,
}

/// The 24-byte header of one WAL frame.
#[derive(Clone, Copy, Debug, PartialEq, Eq, Structural)]
pub struct WalFrameHeader {
    pub page_number: u32,
    pub db_size_after_commit: u32,
    pub salt_1: u32,
    pub salt_2: u32,
    pub checksum_1: u32,
    pub checksum_2: u32,
}

/// One WAL frame: its header followed by exactly one page image.
#[derive(Clone, Debug)]
pub struct WalFrame {
    pub header: WalFrameHeader,
    pub data: Vec<u8>,
}

/// The two-word checksum over a word sequence, folded pair by pair with
/// wrapping 32-bit addition: `s1 += w0 + s2; s2 += w1 + s1`.
pub open spec fn spec_checksum(words: Seq<u32>, s1: u32, s2: u32) -> (u32, u32)
    decreases words.len(),
{
    if words.len() < 2 {
        (s1, s2)
    } else {
        let n1 = (((s1 + words[0] + s2) as int) % 0x1_0000_0000) as u32;
        let n2 = (((s2 + words[1] + n1) as int) % 0x1_0000_0000) as u32;
        spec_checksum(words.skip(2), n1, n2)
    }
}

/// Folds a word sequence into the two-word checksum, continuing from the
/// given seed pair (`None` seeds start from zero). The word count must be
/// even: callers reject odd counts before invocation.
pub fn checksum(input: &[u32], s1: Option<u32>, s2: Option<u32>) -> (r: (u32, u32))
    requires
        input@.len() % 2 == 0,
    ensures
        r == spec_checksum(
            input@,
            if s1 is Some {
                s1->0
            } else {
                0u32
            },
            if s2 is Some {
                s2->0
            } else {
                0u32
            },
        ),
{
    let mut c1: u32 = match s1 {
        Some(v) => v,
        None => 0,
    };
    let mut c2: u32 = match s2 {
        Some(v) => v,
        None => 0,
    };
    let ghost seed1 = c1;
    let ghost seed2 = c2;
    proof {
        assert(input@.skip(0) =~= input@);
    }
    let mut i: usize = 0;
    while i < input.len()
        invariant
            i <= input@.len(),
            i % 2 == 0,
            input@.len() % 2 == 0,
            spec_checksum(input@, seed1, seed2) == spec_checksum(input@.skip(i as int), c1, c2),
        decreases input@.len() - i,
    {
        let n1 = ((c1 as u64 + input[i] as u64 + c2 as u64) % 0x1_0000_0000) as u32;
        let n2 = ((c2 as u64 + input[i + 1] as u64 + n1 as u64) % 0x1_0000_0000) as u32;
        proof {
            let rest = input@.skip(i as int);
            assert(rest.len() >= 2);
            assert(rest[0] == input@[i as int]);
            assert(rest[1] == input@[i + 1]);
            assert(rest.skip(2) =~= input@.skip(i + 2));
        }
        c1 = n1;
        c2 = n2;
        i = i + 2;
    }
    (c1, c2)
}

impl Wal {
    /// Writes `value` as the first salt of the header and of every frame.
    pub fn rewrite_salt_1(self, value: u32) -> (r: Wal)
        ensures
            r.header == (WalHeader { salt_1: value, ..self.header }),
            r.frames@.len() == self.frames@.len(),
            forall|i: int|
                0 <= i < self.frames@.len() ==> #[trigger] r.frames@[i] == (WalFrame {
                    header: WalFrameHeader { salt_1: value, ..self.frames@[i].header },
                    data: self.frames@[i].data,
                }),
    {
        let mut w = self;
        let ghost orig = w;
        w.header.salt_1 = value;
        let n = w.frames.len();
        let mut i: usize = 0;
        while i < n
            invariant
                i <= n,
                n == w.frames@.len(),
                w.header == (WalHeader { salt_1: value, ..orig.header }),
                forall|j: int|
                    0 <= j < i ==> #[trigger] w.frames@[j] == (WalFrame {
                        header: WalFrameHeader { salt_1: value, ..orig.frames@[j].header },
                        data: orig.frames@[j].data,
                    }),
                forall|j: int|
                    i <= j < n ==> #[trigger] w.frames@[j] == orig.frames@[j],
            decreases n - i,
        {
            w.frames[i].header.salt_1 = value;
            i = i + 1;
        }
        w
    }

    /// Writes `value` as the second salt of the header and of every frame.
    pub fn rewrite_salt_2(self, value: u32) -> (r: Wal)
        ensures
            r.header == (WalHeader { salt_2: value, ..self.header }),
            r.frames@.len() == self.frames@.len(),
            forall|i: int|
                0 <= i < self.frames@.len() ==> #[trigger] r.frames@[i] == (WalFrame {
                    header: WalFrameHeader { salt_2: value, ..self.frames@[i].header },
                    data: self.frames@[i].data,
                }),
    {
        let mut w = self;
        let ghost orig = w;
        w.header.salt_2 = value;
        let n = w.frames.len();
        let mut i: usize = 0;
        while i < n
            invariant
                i <= n,
                n == w.frames@.len(),
                w.header == (WalHeader { salt_2: value, ..orig.header }),
                forall|j: int|
                    0 <= j < i ==> #[trigger] w.frames@[j] == (WalFrame {
                        header: WalFrameHeader { salt_2: value, ..orig.frames@[j].header },
                        data: orig.frames@[j].data,
                    }),
                forall|j: int|
                    i <= j < n ==> #[trigger] w.frames@[j] == orig.frames@[j],
            decreases n - i,
        {
            w.frames[i].header.salt_2 = value;
            i = i + 1;
        }
        w
    }
}

/// The six header words whose fold seeds the WAL checksum stream. The magic
/// word is folded under the big-endian convention the encoder emits.
pub open spec fn spec_wal_header_words(h: WalHeader) -> Seq<u32> {
    seq![MAGIC_NUMBER_2, h.file_format, h.page_size, h.checkpoint_seq, h.salt_1, h.salt_2]
}

impl WalHeader {
    /// The checksum pair over the header's first 24 bytes as emitted: magic,
    /// format, page size, checkpoint sequence and the two salts.
    pub fn checksum(&self) -> (r: (u32, u32))
        ensures
            r == spec_checksum(spec_wal_header_words(*self), 0u32, 0u32),
    {
        let mut words: Vec<u32> = Vec::new();
        words.push(MAGIC_NUMBER_2);
        words.push(self.file_format);
        words.push(self.page_size);
        words.push(self.checkpoint_seq);
        words.push(self.salt_1);
        words.push(self.salt_2);
        assert(words@ =~= spec_wal_header_words(*self));
        checksum(words.as_slice(), None, None)
    }
}

impl WalFrameHeader {
    /// Extends a running checksum pair over this frame's 8-byte prefix: the
    /// page number and the size-after-commit word.
    pub fn checksum(&self, checksum_1: u32, checksum_2: u32) -> (r: (u32, u32))
        ensures
            r == spec_checksum(
                seq![self.page_number, self.db_size_after_commit],
                checksum_1,
                checksum_2,
            ),
    {
        let mut words: Vec<u32> = Vec::new();
        words.push(self.page_number);
        words.push(self.db_size_after_commit);
        assert(words@ =~= seq![self.page_number, self.db_size_after_commit]);
        checksum(words.as_slice(), Some(checksum_1), Some(checksum_2))
    }
}

} // verus!
