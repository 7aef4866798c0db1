//! WAL codec: the 32-byte header and the ordered frame list, in both
//! directions. Decoding accepts either magic word and checks every frame's
//! salts against the header; encoding always emits the big-endian magic and
//! threads the two-word checksum through the header and every frame.

use vstd::prelude::*;
use crate::bytes::{be32_at, read_bytes, read_u32, u32_bytes, write_bytes, write_u32};
use crate::error::{Error, ErrorKind};
use crate::types::{checksum, spec_checksum, spec_wal_header_words, Wal, WalFrame, WalFrameHeader,
    WalHeader, MAGIC_NUMBER_1, MAGIC_NUMBER_2, SUPPORTED_FILE_FORMAT};

verus! {

/// A byte run read as big-endian 32-bit words, whole groups of four only.
pub open spec fn bytes_words(b: Seq<u8>) -> Seq<u32> {
    Seq::new((b.len() / 4) as nat, |i: int| be32_at(b, 4 * i))
}

/// One frame as the contracts speak of it: its header and its page image.
pub type FrameModel = (WalFrameHeader, Seq<u8>);

impl WalFrame {
    /// The frame as its header and byte sequence.
    pub open spec fn model(self) -> FrameModel {
        (self.header, self.data@)
    }
}

impl Wal {
    /// The frame list as a sequence of frame models.
    pub open spec fn frames_model(self) -> Seq<FrameModel> {
        Seq::new(self.frames@.len(), |i: int| self.frames@[i].model())
    }
}

/// Parses the 32-byte WAL header: `EndOfInput` under 32 bytes,
/// `InvalidMagic` unless one of the two accepted magic words opens it,
/// `UnsupportedFormat` unless the format word is the supported constant.
pub open spec fn spec_parse_wal_header(b: Seq<u8>) -> Result<WalHeader, ErrorKind> {
    if b.len() < 32 {
        Err(ErrorKind::EndOfInput)
    } else if be32_at(b, 0) != MAGIC_NUMBER_1 && be32_at(b, 0) != MAGIC_NUMBER_2 {
        Err(ErrorKind::InvalidMagic)
    } else if be32_at(b, 4) != SUPPORTED_FILE_FORMAT {
        Err(ErrorKind::UnsupportedFormat)
    } else {
        Ok(
            WalHeader {
                magic_number: be32_at(b, 0),
                file_format: be32_at(b, 4),
                page_size: be32_at(b, 8),
                checkpoint_seq: be32_at(b, 12),
                salt_1: be32_at(b, 16),
                salt_2: be32_at(b, 20),
                checksum_1: be32_at(b, 24),
                checksum_2: be32_at(b, 28),
            },
        )
    }
}

/// The 24-byte frame header starting at `pos`.
pub open spec fn spec_parse_frame_header(b: Seq<u8>, pos: int) -> WalFrameHeader {
    WalFrameHeader {
        page_number: be32_at(b, pos),
        db_size_after_commit: be32_at(b, pos + 4),
        salt_1: be32_at(b, pos + 8),
        salt_2: be32_at(b, pos + 12),
        checksum_1: be32_at(b, pos + 16),
        checksum_2: be32_at(b, pos + 20),
    }
}

/// Decodes frames from `pos` to the end: while a whole frame remains, its
/// 24-byte header is read, both salts must echo the WAL header's, and one
/// page image follows. A trailing run shorter than a whole frame is
/// permitted padding and ends the list.
pub open spec fn spec_decode_frames(b: Seq<u8>, pos: int, salt_1: u32, salt_2: u32, ps: int)
    -> Result<Seq<FrameModel>, ErrorKind>
    decreases b.len() - pos,
{
    if pos < 0 || ps < 0 || b.len() - pos < ps + 24 {
        Ok(Seq::empty())
    } else {
        let fh = spec_parse_frame_header(b, pos);
        if fh.salt_1 != salt_1 || fh.salt_2 != salt_2 {
            Err(ErrorKind::SaltMismatch)
        } else {
            match spec_decode_frames(b, pos + 24 + ps, salt_1, salt_2, ps) {
                Err(k) => Err(k),
                Ok(rest) => Ok(seq![(fh, b.subrange(pos + 24, pos + 24 + ps))] + rest),
            }
        }
    }
}

/// Every frame of a successfully decoded list echoes the header's salts: an
/// input whose frame salts disagree is rejected.
pub proof fn lemma_salt_agreement(b: Seq<u8>, pos: int, salt_1: u32, salt_2: u32, ps: int)
    requires
        spec_decode_frames(b, pos, salt_1, salt_2, ps) is Ok,
    ensures
        forall|i: int|
            0 <= i < spec_decode_frames(b, pos, salt_1, salt_2, ps)->Ok_0.len() ==> {
                let fh = (#[trigger] spec_decode_frames(b, pos, salt_1, salt_2, ps)->Ok_0[i]).0;
                fh.salt_1 == salt_1 && fh.salt_2 == salt_2
            },
    decreases b.len() - pos,
{
    if !(pos < 0 || ps < 0 || b.len() - pos < ps + 24) {
        let fh = spec_parse_frame_header(b, pos);
        if fh.salt_1 == salt_1 && fh.salt_2 == salt_2 {
            lemma_salt_agreement(b, pos + 24 + ps, salt_1, salt_2, ps);
        }
    }
}

/// Decodes a WAL file: the 32-byte header, then every whole frame, exactly
/// as `spec_parse_wal_header` and `spec_decode_frames` say.
pub fn decode(input: &[u8]) -> (r: Result<Wal, Error>)
    ensures
        match r {
            Ok(w) => {
                &&& spec_parse_wal_header(input@) == Ok::<WalHeader, ErrorKind>(w.header)
                &&& spec_decode_frames(
                    input@,
                    32,
                    w.header.salt_1,
                    w.header.salt_2,
                    w.header.page_size as int,
                ) == Ok::<Seq<FrameModel>, ErrorKind>(w.frames_model())
            },
            Err(e) => match spec_parse_wal_header(input@) {
                Err(k) => k == e.kind,
                Ok(h) => spec_decode_frames(input@, 32, h.salt_1, h.salt_2, h.page_size as int)
                    == Err::<Seq<FrameModel>, ErrorKind>(e.kind),
            },
        },
{
    if input.len() < 32 {
        return Err(Error::new(ErrorKind::EndOfInput, "WAL header needs 32 bytes"));
    }
    let magic_number = match read_u32(input, 0) {
        Ok(v) => v,
        Err(e) => { return Err(e) },
    };
    if magic_number != MAGIC_NUMBER_1 && magic_number != MAGIC_NUMBER_2 {
        return Err(Error::new(ErrorKind::InvalidMagic, "WAL magic word not found"));
    }
    let file_format = match read_u32(input, 4) {
        Ok(v) => v,
        Err(e) => { return Err(e) },
    };
    if file_format != SUPPORTED_FILE_FORMAT {
        return Err(Error::new(ErrorKind::UnsupportedFormat, "unsupported WAL format version"));
    }
    let header = WalHeader {
        magic_number,
        file_format,
        page_size: match read_u32(input, 8) {
            Ok(v) => v,
            Err(e) => { return Err(e) },
        },
        checkpoint_seq: match read_u32(input, 12) {
            Ok(v) => v,
            Err(e) => { return Err(e) },
        },
        salt_1: match read_u32(input, 16) {
            Ok(v) => v,
            Err(e) => { return Err(e) },
        },
        salt_2: match read_u32(input, 20) {
            Ok(v) => v,
            Err(e) => { return Err(e) },
        },
        checksum_1: match read_u32(input, 24) {
            Ok(v) => v,
            Err(e) => { return Err(e) },
        },
        checksum_2: match read_u32(input, 28) {
            Ok(v) => v,
            Err(e) => { return Err(e) },
        },
    };
    let ps = header.page_size;
    let mut frames: Vec<WalFrame> = Vec::new();
    let mut pos: usize = 32;
    while input.len() - pos >= 24 && (input.len() - pos - 24) as u64 >= ps as u64
        invariant
            32 <= pos <= input@.len(),
            spec_parse_wal_header(input@) == Ok::<WalHeader, ErrorKind>(header),
            ps == header.page_size,
            (match spec_decode_frames(
                input@,
                pos as int,
                header.salt_1,
                header.salt_2,
                ps as int,
            ) {
                Ok(rest) => spec_decode_frames(
                    input@,
                    32,
                    header.salt_1,
                    header.salt_2,
                    ps as int,
                ) == Ok::<Seq<FrameModel>, ErrorKind>(
                    Seq::new(frames@.len(), |i: int| frames@[i].model()) + rest,
                ),
                Err(k) => spec_decode_frames(input@, 32, header.salt_1, header.salt_2, ps as int)
                    == Err::<Seq<FrameModel>, ErrorKind>(k),
            }),
        decreases input@.len() - pos,
    {
        let fh = WalFrameHeader {
            page_number: match read_u32(input, pos) {
                Ok(v) => v,
                Err(e) => { return Err(e) },
            },
            db_size_after_commit: match read_u32(input, pos + 4) {
                Ok(v) => v,
                Err(e) => { return Err(e) },
            },
            salt_1: match read_u32(input, pos + 8) {
                Ok(v) => v,
                Err(e) => { return Err(e) },
            },
            salt_2: match read_u32(input, pos + 12) {
                Ok(v) => v,
                Err(e) => { return Err(e) },
            },
            checksum_1: match read_u32(input, pos + 16) {
                Ok(v) => v,
                Err(e) => { return Err(e) },
            },
            checksum_2: match read_u32(input, pos + 20) {
                Ok(v) => v,
                Err(e) => { return Err(e) },
            },
        };
        assert(fh == spec_parse_frame_header(input@, pos as int));
        if fh.salt_1 != header.salt_1 || fh.salt_2 != header.salt_2 {
            return Err(Error::new(ErrorKind::SaltMismatch, "frame salts disagree with the header"));
        }
        let data = match read_bytes(input, pos + 24, ps as usize) {
            Ok(d) => d,
            Err(e) => { return Err(e) },
        };
        let ghost prev_frames = Seq::new(frames@.len(), |i: int| frames@[i].model());
        frames.push(WalFrame { header: fh, data });
        pos = pos + 24 + ps as usize;
        proof {
            let fm = Seq::new(frames@.len(), |i: int| frames@[i].model());
            assert(fm =~= prev_frames + seq![
                (fh, input@.subrange(pos as int - ps as int, pos as int)),
            ]);
            assert(input@.subrange(pos - 24 - ps as int + 24, pos as int) =~= input@.subrange(
                pos as int - ps as int,
                pos as int,
            ));
            match spec_decode_frames(input@, pos as int, header.salt_1, header.salt_2, ps as int) {
                Ok(rest) => {
                    assert(prev_frames + (seq![
                        (fh, input@.subrange(pos as int - ps as int, pos as int)),
                    ] + rest) =~= fm + rest);
                },
                Err(k) => {},
            }
        }
    }
    let w = Wal { header, frames };
    proof {
        assert(spec_decode_frames(input@, pos as int, header.salt_1, header.salt_2, ps as int)
            == Ok::<Seq<FrameModel>, ErrorKind>(Seq::empty()));
        assert(w.frames_model() + Seq::<FrameModel>::empty() =~= w.frames_model());
    }
    Ok(w)
}

/// The checksum pair over the first 24 bytes of the emitted header.
pub open spec fn spec_wal_header_pair(h: WalHeader) -> (u32, u32) {
    spec_checksum(spec_wal_header_words(h), 0u32, 0u32)
}

/// The 32 emitted header bytes, with the given checksum pair in the last
/// two words. The big-endian magic word is always emitted.
pub open spec fn spec_wal_header_bytes_with(h: WalHeader, c1: u32, c2: u32) -> Seq<u8> {
    u32_bytes(MAGIC_NUMBER_2) + u32_bytes(h.file_format) + u32_bytes(h.page_size) + u32_bytes(
        h.checkpoint_seq,
    ) + u32_bytes(h.salt_1) + u32_bytes(h.salt_2) + u32_bytes(c1) + u32_bytes(c2)
}

/// The emitted header bytes carrying the canonical checksum pair.
pub open spec fn spec_wal_header_bytes(h: WalHeader) -> Seq<u8> {
    spec_wal_header_bytes_with(h, spec_wal_header_pair(h).0, spec_wal_header_pair(h).1)
}

/// The running checksum pair after the header and the first `i` frames:
/// each frame extends the pair over its 8-byte prefix, then its payload.
pub open spec fn spec_stream_cksum(h: WalHeader, frames: Seq<FrameModel>, i: int) -> (u32, u32)
    decreases i,
{
    if i <= 0 {
        spec_wal_header_pair(h)
    } else {
        let prev = spec_stream_cksum(h, frames, i - 1);
        let mid = spec_checksum(
            seq![frames[i - 1].0.page_number, frames[i - 1].0.db_size_after_commit],
            prev.0,
            prev.1,
        );
        spec_checksum(bytes_words(frames[i - 1].1), mid.0, mid.1)
    }
}

/// The 24 emitted frame-header bytes followed by the page image, with the
/// given running checksum pair in the last two header words.
pub open spec fn spec_frame_bytes(fh: WalFrameHeader, data: Seq<u8>, c1: u32, c2: u32) -> Seq<u8> {
    u32_bytes(fh.page_number) + u32_bytes(fh.db_size_after_commit) + u32_bytes(fh.salt_1)
        + u32_bytes(fh.salt_2) + u32_bytes(c1) + u32_bytes(c2) + data
}

/// The emission of the first `i` frames, each carrying the running checksum
/// pair as of its own payload.
pub open spec fn spec_encode_frames(h: WalHeader, frames: Seq<FrameModel>, i: int) -> Seq<u8>
    decreases i,
{
    if i <= 0 {
        Seq::empty()
    } else {
        spec_encode_frames(h, frames, i - 1) + spec_frame_bytes(
            frames[i - 1].0,
            frames[i - 1].1,
            spec_stream_cksum(h, frames, i).0,
            spec_stream_cksum(h, frames, i).1,
        )
    }
}

/// The whole emission of a WAL: header, then every frame in order.
pub open spec fn spec_encode_wal(h: WalHeader, frames: Seq<FrameModel>) -> Seq<u8> {
    spec_wal_header_bytes(h) + spec_encode_frames(h, frames, frames.len() as int)
}

/// Extends a running checksum pair over a byte run taken as big-endian
/// words. The run must be a whole number of word pairs.
fn checksum_bytes(bytes: &[u8], checksum_1: u32, checksum_2: u32) -> (r: (u32, u32))
    requires
        bytes@.len() % 8 == 0,
    ensures
        r == spec_checksum(bytes_words(bytes@), checksum_1, checksum_2),
{
    proof {
        assert(bytes@.len() % 4 == 0 && (bytes@.len() / 4) % 2 == 0) by (nonlinear_arith)
            requires
                bytes@.len() % 8 == 0,
                bytes@.len() >= 0;
    }
    let count = bytes.len() / 4;
    let mut words: Vec<u32> = Vec::new();
    let mut j: usize = 0;
    while j < count
        invariant
            j <= count,
            count == bytes@.len() / 4,
            bytes@.len() % 4 == 0,
            bytes@.len() <= usize::MAX,
            words@ == bytes_words(bytes@).subrange(0, j as int),
        decreases count - j,
    {
        proof {
            assert(4 * (j + 1) <= bytes@.len()) by (nonlinear_arith)
                requires
                    j as int + 1 <= bytes@.len() / 4,
                    bytes@.len() % 4 == 0,
                    bytes@.len() >= 0;
        }
        let word = match read_u32(bytes, 4 * j) {
            Ok(v) => v,
            Err(e) => {
                proof {
                    assert(false);
                }
                return (0, 0)
            },
        };
        words.push(word);
        assert(words@ =~= bytes_words(bytes@).subrange(0, j + 1));
        j = j + 1;
    }
    assert(words@ =~= bytes_words(bytes@));
    checksum(words.as_slice(), Some(checksum_1), Some(checksum_2))
}

/// Emits a WAL header with the given checksum pair in its last two words.
pub fn write_wal_header(writer: &mut Vec<u8>, header: &WalHeader, checksum_1: u32, checksum_2: u32)
    -> (r: Result<(), Error>)
    ensures
        r is Ok,
        final(writer)@ == old(writer)@ + spec_wal_header_bytes_with(*header, checksum_1, checksum_2),
{
    write_u32(writer, MAGIC_NUMBER_2);
    write_u32(writer, header.file_format);
    write_u32(writer, header.page_size);
    write_u32(writer, header.checkpoint_seq);
    write_u32(writer, header.salt_1);
    write_u32(writer, header.salt_2);
    write_u32(writer, checksum_1);
    write_u32(writer, checksum_2);
    assert(final(writer)@ =~= old(writer)@ + spec_wal_header_bytes_with(
        *header,
        checksum_1,
        checksum_2,
    ));
    Ok(())
}

/// Emits a 24-byte frame header with the given running checksum pair.
pub fn write_wal_frame_header(
    writer: &mut Vec<u8>,
    header: &WalFrameHeader,
    checksum_1: u32,
    checksum_2: u32,
) -> (r: Result<(), Error>)
    ensures
        r is Ok,
        final(writer)@ == old(writer)@ + spec_frame_bytes(
            *header,
            Seq::empty(),
            checksum_1,
            checksum_2,
        ),
{
    write_u32(writer, header.page_number);
    write_u32(writer, header.db_size_after_commit);
    write_u32(writer, header.salt_1);
    write_u32(writer, header.salt_2);
    write_u32(writer, checksum_1);
    write_u32(writer, checksum_2);
    assert(final(writer)@ =~= old(writer)@ + spec_frame_bytes(
        *header,
        Seq::empty(),
        checksum_1,
        checksum_2,
    ));
    Ok(())
}

/// Emits one frame: its header with the given running checksum pair, then
/// its page image.
pub fn write_wal_frame(writer: &mut Vec<u8>, frame: &WalFrame, checksum_1: u32, checksum_2: u32)
    -> (r: Result<(), Error>)
    ensures
        r is Ok,
        final(writer)@ == old(writer)@ + spec_frame_bytes(
            frame.header,
            frame.data@,
            checksum_1,
            checksum_2,
        ),
{
    write_wal_frame_header(writer, &frame.header, checksum_1, checksum_2)?;
    write_bytes(writer, frame.data.as_slice());
    assert(final(writer)@ =~= old(writer)@ + spec_frame_bytes(
        frame.header,
        frame.data@,
        checksum_1,
        checksum_2,
    ));
    Ok(())
}

/// Encodes a WAL: the header, then each frame in order, the streaming
/// checksum threaded through the whole emission. Fails with
/// `ChecksumMisaligned` exactly when some frame's payload is not a whole
/// number of word pairs.
pub fn encode(wal: Wal) -> (r: Result<Vec<u8>, Error>)
    ensures
        match r {
            Ok(v) => {
                &&& forall|i: int|
                    0 <= i < wal.frames@.len() ==> (#[trigger] wal.frames@[i]).data@.len() % 8 == 0
                &&& v@ == spec_encode_wal(wal.header, wal.frames_model())
            },
            Err(e) => {
                &&& e.kind == ErrorKind::ChecksumMisaligned
                &&& exists|i: int|
                    0 <= i < wal.frames@.len() && (#[trigger] wal.frames@[i]).data@.len() % 8 != 0
            },
        },
{
    let ghost fm = wal.frames_model();
    let mut buff: Vec<u8> = Vec::new();
    let (c1_0, c2_0) = wal.header.checksum();
    let mut checksum_1 = c1_0;
    let mut checksum_2 = c2_0;
    write_wal_header(&mut buff, &wal.header, checksum_1, checksum_2)?;
    let mut i: usize = 0;
    while i < wal.frames.len()
        invariant
            i <= wal.frames@.len(),
            fm == wal.frames_model(),
            fm.len() == wal.frames@.len(),
            (checksum_1, checksum_2) == spec_stream_cksum(wal.header, fm, i as int),
            buff@ == spec_wal_header_bytes(wal.header) + spec_encode_frames(
                wal.header,
                fm,
                i as int,
            ),
            forall|j: int| 0 <= j < i ==> (#[trigger] wal.frames@[j]).data@.len() % 8 == 0,
        decreases wal.frames@.len() - i,
    {
        let frame = &wal.frames[i];
        if frame.data.len() % 8 != 0 {
            return Err(
                Error::new(
                    ErrorKind::ChecksumMisaligned,
                    "frame payload is not a whole number of word pairs",
                ),
            );
        }
        let (m1, m2) = frame.header.checksum(checksum_1, checksum_2);
        let (n1, n2) = checksum_bytes(frame.data.as_slice(), m1, m2);
        checksum_1 = n1;
        checksum_2 = n2;
        write_wal_frame(&mut buff, frame, checksum_1, checksum_2)?;
        proof {
            assert(fm[i as int] == wal.frames@[i as int].model());
            assert((checksum_1, checksum_2) == spec_stream_cksum(wal.header, fm, i + 1));
            assert(buff@ =~= spec_wal_header_bytes(wal.header) + spec_encode_frames(
                wal.header,
                fm,
                i + 1,
            ));
        }
        i = i + 1;
    }
    Ok(buff)
}

/// The header a decode of the emission reports: the big-endian magic word
/// and the canonical checksum pair in place of whatever was stored.
pub open spec fn spec_canonical_wal_header(h: WalHeader) -> WalHeader {
    WalHeader {
        magic_number: MAGIC_NUMBER_2,
        checksum_1: spec_wal_header_pair(h).0,
        checksum_2: spec_wal_header_pair(h).1,
        ..h
    }
}

/// The frames a decode of the emission reports: each frame's stored
/// checksum pair replaced by the running pair as of its own payload.
pub open spec fn spec_canonical_frames(h: WalHeader, frames: Seq<FrameModel>) -> Seq<FrameModel> {
    Seq::new(
        frames.len(),
        |i: int|
            (
                WalFrameHeader {
                    checksum_1: spec_stream_cksum(h, frames, i + 1).0,
                    checksum_2: spec_stream_cksum(h, frames, i + 1).1,
                    ..frames[i].0
                },
                frames[i].1,
            ),
    )
}

/// A frame emission whose bytes stand somewhere in `b` parses back into its
/// header (with the emitted checksum pair) and its payload.
proof fn lemma_frame_chunk_parse(b: Seq<u8>, pos: int, fh: WalFrameHeader, data: Seq<u8>, c1: u32, c2: u32)
    requires
        0 <= pos,
        pos + 24 + data.len() as int <= b.len(),
        b.subrange(pos, pos + 24 + data.len() as int) == spec_frame_bytes(fh, data, c1, c2),
    ensures
        spec_parse_frame_header(b, pos) == (WalFrameHeader { checksum_1: c1, checksum_2: c2, ..fh }),
        b.subrange(pos + 24, pos + 24 + data.len() as int) == data,
{
    let chunk = spec_frame_bytes(fh, data, c1, c2);
    assert(b.subrange(pos, pos + 4) =~= chunk.subrange(0, 4));
    assert(chunk.subrange(0, 4) =~= u32_bytes(fh.page_number));
    crate::db::lemma_be32_fields(b, pos, fh.page_number);
    assert(b.subrange(pos + 4, pos + 8) =~= chunk.subrange(4, 8));
    assert(chunk.subrange(4, 8) =~= u32_bytes(fh.db_size_after_commit));
    crate::db::lemma_be32_fields(b, pos + 4, fh.db_size_after_commit);
    assert(b.subrange(pos + 8, pos + 12) =~= chunk.subrange(8, 12));
    assert(chunk.subrange(8, 12) =~= u32_bytes(fh.salt_1));
    crate::db::lemma_be32_fields(b, pos + 8, fh.salt_1);
    assert(b.subrange(pos + 12, pos + 16) =~= chunk.subrange(12, 16));
    assert(chunk.subrange(12, 16) =~= u32_bytes(fh.salt_2));
    crate::db::lemma_be32_fields(b, pos + 12, fh.salt_2);
    assert(b.subrange(pos + 16, pos + 20) =~= chunk.subrange(16, 20));
    assert(chunk.subrange(16, 20) =~= u32_bytes(c1));
    crate::db::lemma_be32_fields(b, pos + 16, c1);
    assert(b.subrange(pos + 20, pos + 24) =~= chunk.subrange(20, 24));
    assert(chunk.subrange(20, 24) =~= u32_bytes(c2));
    crate::db::lemma_be32_fields(b, pos + 20, c2);
    assert(b.subrange(pos + 24, pos + 24 + data.len() as int) =~= chunk.subrange(24, 24 + data.len() as int));
    assert(chunk.subrange(24, 24 + data.len() as int) =~= data);
}

/// A header emission standing at the front of `b` parses back into the
/// canonical form of the header it emitted.
proof fn lemma_header_chunk_parse(b: Seq<u8>, h: WalHeader, c1: u32, c2: u32)
    requires
        b.len() >= 32,
        h.file_format == SUPPORTED_FILE_FORMAT,
        b.subrange(0, 32) == spec_wal_header_bytes_with(h, c1, c2),
    ensures
        spec_parse_wal_header(b) == Ok::<WalHeader, ErrorKind>(
            WalHeader { magic_number: MAGIC_NUMBER_2, checksum_1: c1, checksum_2: c2, ..h },
        ),
{
    let chunk = spec_wal_header_bytes_with(h, c1, c2);
    assert(b.subrange(0, 4) =~= chunk.subrange(0, 4));
    assert(chunk.subrange(0, 4) =~= u32_bytes(MAGIC_NUMBER_2));
    crate::db::lemma_be32_fields(b, 0, MAGIC_NUMBER_2);
    assert(b.subrange(4, 8) =~= chunk.subrange(4, 8));
    assert(chunk.subrange(4, 8) =~= u32_bytes(h.file_format));
    crate::db::lemma_be32_fields(b, 4, h.file_format);
    assert(b.subrange(8, 12) =~= chunk.subrange(8, 12));
    assert(chunk.subrange(8, 12) =~= u32_bytes(h.page_size));
    crate::db::lemma_be32_fields(b, 8, h.page_size);
    assert(b.subrange(12, 16) =~= chunk.subrange(12, 16));
    assert(chunk.subrange(12, 16) =~= u32_bytes(h.checkpoint_seq));
    crate::db::lemma_be32_fields(b, 12, h.checkpoint_seq);
    assert(b.subrange(16, 20) =~= chunk.subrange(16, 20));
    assert(chunk.subrange(16, 20) =~= u32_bytes(h.salt_1));
    crate::db::lemma_be32_fields(b, 16, h.salt_1);
    assert(b.subrange(20, 24) =~= chunk.subrange(20, 24));
    assert(chunk.subrange(20, 24) =~= u32_bytes(h.salt_2));
    crate::db::lemma_be32_fields(b, 20, h.salt_2);
    assert(b.subrange(24, 28) =~= chunk.subrange(24, 28));
    assert(chunk.subrange(24, 28) =~= u32_bytes(c1));
    crate::db::lemma_be32_fields(b, 24, c1);
    assert(b.subrange(28, 32) =~= chunk.subrange(28, 32));
    assert(chunk.subrange(28, 32) =~= u32_bytes(c2));
    crate::db::lemma_be32_fields(b, 28, c2);
}

/// The emission of the first `i` frames is `i` whole frames long.
proof fn lemma_encode_frames_len(h: WalHeader, frames: Seq<FrameModel>, i: int, ps: int)
    requires
        0 <= i <= frames.len(),
        forall|j: int| 0 <= j < frames.len() ==> (#[trigger] frames[j]).1.len() == ps,
    ensures
        spec_encode_frames(h, frames, i).len() == i * (24 + ps),
    decreases i,
{
    if i <= 0 {
        assert(0 * (24 + ps) == 0) by (nonlinear_arith);
    } else {
        lemma_encode_frames_len(h, frames, i - 1, ps);
        assert((i - 1) * (24 + ps) + (24 + ps) == i * (24 + ps)) by (nonlinear_arith);
    }
}

/// Inside the emission of `n` frames, frame `i` stands at its own offset.
#[verifier::rlimit(100)]
proof fn lemma_encode_frames_chunk(h: WalHeader, frames: Seq<FrameModel>, n: int, i: int, ps: int)
    requires
        0 <= i < n <= frames.len(),
        forall|j: int| 0 <= j < frames.len() ==> (#[trigger] frames[j]).1.len() == ps,
    ensures
        spec_encode_frames(h, frames, n).subrange(i * (24 + ps), (i + 1) * (24 + ps))
            == spec_frame_bytes(
            frames[i].0,
            frames[i].1,
            spec_stream_cksum(h, frames, i + 1).0,
            spec_stream_cksum(h, frames, i + 1).1,
        ),
    decreases n,
{
    lemma_encode_frames_len(h, frames, n - 1, ps);
    if i == n - 1 {
        assert((i + 1) * (24 + ps) - i * (24 + ps) == 24 + ps) by (nonlinear_arith);
        assert(spec_encode_frames(h, frames, n).subrange(i * (24 + ps), (i + 1) * (24 + ps))
            =~= spec_frame_bytes(
            frames[i].0,
            frames[i].1,
            spec_stream_cksum(h, frames, i + 1).0,
            spec_stream_cksum(h, frames, i + 1).1,
        ));
    } else {
        lemma_encode_frames_chunk(h, frames, n - 1, i, ps);
        assert((i + 1) * (24 + ps) <= (n - 1) * (24 + ps)) by (nonlinear_arith)
            requires
                i + 1 <= n - 1,
                ps >= 0;
        assert(i * (24 + ps) >= 0) by (nonlinear_arith)
            requires
                i >= 0,
                ps >= 0;
        assert(i * (24 + ps) <= (i + 1) * (24 + ps)) by (nonlinear_arith)
            requires
                ps >= 0;
        crate::db::lemma_concat_subrange_prefix(
            spec_encode_frames(h, frames, n - 1),
            spec_frame_bytes(
                frames[n - 1].0,
                frames[n - 1].1,
                spec_stream_cksum(h, frames, n).0,
                spec_stream_cksum(h, frames, n).1,
            ),
            i * (24 + ps),
            (i + 1) * (24 + ps),
        );
    }
}

/// Decoding the emission from frame `i` on reports the remaining frames in
/// canonical form.
proof fn lemma_decode_encoded(h: WalHeader, frames: Seq<FrameModel>, i: int)
    requires
        0 <= i <= frames.len(),
        forall|j: int|
            0 <= j < frames.len() ==> (#[trigger] frames[j]).0.salt_1 == h.salt_1
                && frames[j].0.salt_2 == h.salt_2,
        forall|j: int| 0 <= j < frames.len() ==> (#[trigger] frames[j]).1.len() == h.page_size,
    ensures
        spec_decode_frames(
            spec_encode_wal(h, frames),
            32 + i * (24 + h.page_size as int),
            h.salt_1,
            h.salt_2,
            h.page_size as int,
        ) == Ok::<Seq<FrameModel>, ErrorKind>(spec_canonical_frames(h, frames).skip(i)),
    decreases frames.len() - i,
{
    let ps = h.page_size as int;
    let n = frames.len() as int;
    let b = spec_encode_wal(h, frames);
    let pos = 32 + i * (24 + ps);
    lemma_encode_frames_len(h, frames, n, ps);
    assert(b.len() == 32 + n * (24 + ps));
    if i == n {
        assert(n * (24 + ps) - i * (24 + ps) == 0) by (nonlinear_arith)
            requires
                i == n;
        assert(b.len() - pos == 0);
        assert(spec_canonical_frames(h, frames).skip(i) =~= Seq::<FrameModel>::empty());
    } else {
        assert((i + 1) * (24 + ps) <= n * (24 + ps) && i * (24 + ps) >= 0 && (i + 1) * (24 + ps)
            - i * (24 + ps) == 24 + ps) by (nonlinear_arith)
            requires
                0 <= i < n,
                ps >= 0;
        assert(b.len() - pos >= ps + 24);
        lemma_encode_frames_chunk(h, frames, n, i, ps);
        let c = spec_stream_cksum(h, frames, i + 1);
        let chunk = spec_frame_bytes(frames[i].0, frames[i].1, c.0, c.1);
        assert(b.subrange(pos, pos + 24 + ps) =~= spec_encode_frames(h, frames, n).subrange(
            i * (24 + ps),
            (i + 1) * (24 + ps),
        ));
        lemma_frame_chunk_parse(b, pos, frames[i].0, frames[i].1, c.0, c.1);
        let fh = spec_parse_frame_header(b, pos);
        assert(fh.salt_1 == h.salt_1 && fh.salt_2 == h.salt_2);
        lemma_decode_encoded(h, frames, i + 1);
        assert(32 + (i + 1) * (24 + ps) == pos + 24 + ps) by (nonlinear_arith)
            requires
                pos == 32 + i * (24 + ps);
        let rest = spec_canonical_frames(h, frames).skip(i + 1);
        assert(spec_decode_frames(b, pos, h.salt_1, h.salt_2, ps) == Ok::<
            Seq<FrameModel>,
            ErrorKind,
        >(seq![(fh, b.subrange(pos + 24, pos + 24 + ps))] + rest));
        assert(seq![(fh, frames[i].1)] + rest =~= spec_canonical_frames(h, frames).skip(i));
    }
}

/// The WAL round trip: decoding the emission of any WAL whose frames echo
/// its salts yields the same header and frames back, in canonical form. The
/// big-endian magic word replaces whichever was stored, and the stored
/// checksum words are replaced by the recomputed stream, which is identical
/// to the stored one whenever the input came from a faithful emission.
#[verifier::rlimit(100)]
pub proof fn lemma_wal_roundtrip(h: WalHeader, frames: Seq<FrameModel>)
    requires
        h.file_format == SUPPORTED_FILE_FORMAT,
        forall|j: int|
            0 <= j < frames.len() ==> (#[trigger] frames[j]).0.salt_1 == h.salt_1
                && frames[j].0.salt_2 == h.salt_2,
        forall|j: int| 0 <= j < frames.len() ==> (#[trigger] frames[j]).1.len() == h.page_size,
    ensures
        spec_parse_wal_header(spec_encode_wal(h, frames)) == Ok::<WalHeader, ErrorKind>(
            spec_canonical_wal_header(h),
        ),
        spec_decode_frames(
            spec_encode_wal(h, frames),
            32,
            h.salt_1,
            h.salt_2,
            h.page_size as int,
        ) == Ok::<Seq<FrameModel>, ErrorKind>(spec_canonical_frames(h, frames)),
{
    let ps = h.page_size as int;
    let n = frames.len() as int;
    let b = spec_encode_wal(h, frames);
    lemma_encode_frames_len(h, frames, n, ps);
    assert(n * (24 + ps) >= 0) by (nonlinear_arith)
        requires
            n >= 0,
            ps >= 0;
    assert(b.subrange(0, 32) =~= spec_wal_header_bytes(h));
    lemma_header_chunk_parse(b, h, spec_wal_header_pair(h).0, spec_wal_header_pair(h).1);
    lemma_decode_encoded(h, frames, 0);
    assert(0 * (24 + ps) == 0) by (nonlinear_arith);
    assert(spec_canonical_frames(h, frames).skip(0) =~= spec_canonical_frames(h, frames));
}

/// A successful frame decode reads each frame at its own offset: frame `i`
/// begins `i` whole frames past `pos`, and less than one whole frame of
/// padding follows the last.
proof fn lemma_decode_offsets(b: Seq<u8>, pos: int, salt_1: u32, salt_2: u32, ps: int)
    requires
        pos >= 0,
        ps >= 0,
        pos <= b.len(),
        spec_decode_frames(b, pos, salt_1, salt_2, ps) is Ok,
    ensures
        ({
            let fs = spec_decode_frames(b, pos, salt_1, salt_2, ps)->Ok_0;
            &&& pos + fs.len() * (24 + ps) <= b.len()
            &&& b.len() - (pos + fs.len() * (24 + ps)) < 24 + ps
            &&& forall|i: int|
                0 <= i < fs.len() ==> #[trigger] fs[i] == (
                    spec_parse_frame_header(b, pos + i * (24 + ps)),
                    b.subrange(
                        pos + i * (24 + ps) + 24,
                        pos + i * (24 + ps) + 24 + ps,
                    ),
                )
        }),
    decreases b.len() - pos,
{
    let fs = spec_decode_frames(b, pos, salt_1, salt_2, ps)->Ok_0;
    if b.len() - pos < ps + 24 {
        assert(fs.len() == 0);
        assert(0 * (24 + ps) == 0) by (nonlinear_arith);
    } else {
        lemma_decode_offsets(b, pos + 24 + ps, salt_1, salt_2, ps);
        let rest = spec_decode_frames(b, pos + 24 + ps, salt_1, salt_2, ps)->Ok_0;
        assert(fs == seq![(spec_parse_frame_header(b, pos), b.subrange(pos + 24, pos + 24 + ps))]
            + rest);
        assert(fs.len() == rest.len() + 1);
        assert(fs.len() * (24 + ps) == rest.len() * (24 + ps) + (24 + ps)) by (nonlinear_arith)
            requires
                fs.len() == rest.len() + 1;
        assert forall|i: int|
            0 <= i < fs.len() implies #[trigger] fs[i] == (
            spec_parse_frame_header(b, pos + i * (24 + ps)),
            b.subrange(pos + i * (24 + ps) + 24, pos + i * (24 + ps) + 24 + ps),
        ) by {
            if i == 0 {
                assert(0 * (24 + ps) == 0) by (nonlinear_arith);
            } else {
                assert(fs[i] == rest[i - 1]);
                assert((pos + 24 + ps) + (i - 1) * (24 + ps) == pos + i * (24 + ps)) by (nonlinear_arith);
            }
        }
    }
}

/// A frame emission rebuilt from parsed fields reproduces the source run.
proof fn lemma_frame_bytes_from_parse(b: Seq<u8>, pos: int, ps: int)
    requires
        0 <= pos,
        0 <= ps,
        pos + 24 + ps <= b.len(),
    ensures
        spec_frame_bytes(
            spec_parse_frame_header(b, pos),
            b.subrange(pos + 24, pos + 24 + ps),
            be32_at(b, pos + 16),
            be32_at(b, pos + 20),
        ) == b.subrange(pos, pos + 24 + ps),
{
    crate::bytes::lemma_be32_roundtrip(b[pos], b[pos + 1], b[pos + 2], b[pos + 3]);
    crate::bytes::lemma_be32_roundtrip(b[pos + 4], b[pos + 5], b[pos + 6], b[pos + 7]);
    crate::bytes::lemma_be32_roundtrip(b[pos + 8], b[pos + 9], b[pos + 10], b[pos + 11]);
    crate::bytes::lemma_be32_roundtrip(b[pos + 12], b[pos + 13], b[pos + 14], b[pos + 15]);
    crate::bytes::lemma_be32_roundtrip(b[pos + 16], b[pos + 17], b[pos + 18], b[pos + 19]);
    crate::bytes::lemma_be32_roundtrip(b[pos + 20], b[pos + 21], b[pos + 22], b[pos + 23]);
    assert(spec_frame_bytes(
        spec_parse_frame_header(b, pos),
        b.subrange(pos + 24, pos + 24 + ps),
        be32_at(b, pos + 16),
        be32_at(b, pos + 20),
    ) =~= b.subrange(pos, pos + 24 + ps));
}

/// Re-encoding a decoded WAL reproduces the source bytes, provided the
/// source carried the big-endian magic word, held the canonical checksum
/// stream, and ended without padding after its last frame: the byte round
/// trip of the WAL codec.
#[verifier::rlimit(100)]
pub proof fn lemma_wal_bytes_roundtrip(b: Seq<u8>)
    requires
        spec_parse_wal_header(b) is Ok,
        ({
            let h = spec_parse_wal_header(b)->Ok_0;
            let fs = spec_decode_frames(b, 32, h.salt_1, h.salt_2, h.page_size as int)->Ok_0;
            &&& spec_decode_frames(b, 32, h.salt_1, h.salt_2, h.page_size as int) is Ok
            &&& h.magic_number == MAGIC_NUMBER_2
            &&& h.checksum_1 == spec_wal_header_pair(h).0
            &&& h.checksum_2 == spec_wal_header_pair(h).1
            &&& b.len() == 32 + fs.len() * (24 + h.page_size as int)
            &&& forall|i: int|
                0 <= i < fs.len() ==> (#[trigger] fs[i]).0.checksum_1 == spec_stream_cksum(
                    h,
                    fs,
                    i + 1,
                ).0 && fs[i].0.checksum_2 == spec_stream_cksum(h, fs, i + 1).1
        }),
    ensures
        ({
            let h = spec_parse_wal_header(b)->Ok_0;
            let fs = spec_decode_frames(b, 32, h.salt_1, h.salt_2, h.page_size as int)->Ok_0;
            spec_encode_wal(h, fs) == b
        }),
{
    let h = spec_parse_wal_header(b)->Ok_0;
    let ps = h.page_size as int;
    let fs = spec_decode_frames(b, 32, h.salt_1, h.salt_2, ps)->Ok_0;
    let n = fs.len() as int;
    assert(n * (24 + ps) >= 0) by (nonlinear_arith)
        requires
            n >= 0,
            ps >= 0;
    crate::bytes::lemma_be32_roundtrip(b[0], b[1], b[2], b[3]);
    crate::bytes::lemma_be32_roundtrip(b[4], b[5], b[6], b[7]);
    crate::bytes::lemma_be32_roundtrip(b[8], b[9], b[10], b[11]);
    crate::bytes::lemma_be32_roundtrip(b[12], b[13], b[14], b[15]);
    crate::bytes::lemma_be32_roundtrip(b[16], b[17], b[18], b[19]);
    crate::bytes::lemma_be32_roundtrip(b[20], b[21], b[22], b[23]);
    crate::bytes::lemma_be32_roundtrip(b[24], b[25], b[26], b[27]);
    crate::bytes::lemma_be32_roundtrip(b[28], b[29], b[30], b[31]);
    assert(spec_wal_header_bytes(h) =~= b.subrange(0, 32));
    lemma_decode_offsets(b, 32, h.salt_1, h.salt_2, ps);
    lemma_encoded_frames_are_subrange(b, h, fs, n);
    assert(spec_encode_wal(h, fs) =~= b);
}

/// Under the hypotheses of the byte round trip, the emission of the first
/// `m` decoded frames is exactly the corresponding source run.
proof fn lemma_encoded_frames_are_subrange(b: Seq<u8>, h: WalHeader, fs: Seq<FrameModel>, m: int)
    requires
        0 <= m <= fs.len(),
        32 + fs.len() * (24 + h.page_size as int) <= b.len(),
        forall|i: int|
            0 <= i < fs.len() ==> #[trigger] fs[i] == (
                spec_parse_frame_header(b, 32 + i * (24 + h.page_size as int)),
                b.subrange(
                    32 + i * (24 + h.page_size as int) + 24,
                    32 + i * (24 + h.page_size as int) + 24 + h.page_size as int,
                ),
            ),
        forall|i: int|
            0 <= i < fs.len() ==> (#[trigger] fs[i]).0.checksum_1 == spec_stream_cksum(
                h,
                fs,
                i + 1,
            ).0 && fs[i].0.checksum_2 == spec_stream_cksum(h, fs, i + 1).1,
    ensures
        spec_encode_frames(h, fs, m) == b.subrange(32, 32 + m * (24 + h.page_size as int)),
    decreases m,
{
    let ps = h.page_size as int;
    if m == 0 {
        assert(0 * (24 + ps) == 0) by (nonlinear_arith);
        assert(spec_encode_frames(h, fs, 0) =~= b.subrange(32, 32));
    } else {
        lemma_encoded_frames_are_subrange(b, h, fs, m - 1);
        let pos = 32 + (m - 1) * (24 + ps);
        assert(m * (24 + ps) == (m - 1) * (24 + ps) + (24 + ps)) by (nonlinear_arith);
        assert((m - 1) * (24 + ps) >= 0 && m * (24 + ps) <= fs.len() * (24 + ps)) by (nonlinear_arith)
            requires
                1 <= m <= fs.len(),
                ps >= 0;
        assert(fs[m - 1] == (
            spec_parse_frame_header(b, pos),
            b.subrange(pos + 24, pos + 24 + ps),
        ));
        lemma_frame_bytes_from_parse(b, pos, ps);
        assert(be32_at(b, pos + 16) == fs[m - 1].0.checksum_1);
        assert(be32_at(b, pos + 20) == fs[m - 1].0.checksum_2);
        assert(spec_frame_bytes(
            fs[m - 1].0,
            fs[m - 1].1,
            spec_stream_cksum(h, fs, m).0,
            spec_stream_cksum(h, fs, m).1,
        ) == b.subrange(pos, pos + 24 + ps));
        assert(spec_encode_frames(h, fs, m) =~= b.subrange(32, 32 + m * (24 + ps)));
    }
}

/// The checksum stream is local: the pair after `i` frames depends only on
/// the six folded header words and on the page numbers, commit sizes and
/// payloads of the first `i` frames, in that exact order.
pub proof fn lemma_checksum_locality(
    h1: WalHeader,
    h2: WalHeader,
    f1: Seq<FrameModel>,
    f2: Seq<FrameModel>,
    i: int,
)
    requires
        spec_wal_header_words(h1) == spec_wal_header_words(h2),
        forall|j: int|
            0 <= j < i ==> (#[trigger] f1[j]).0.page_number == (#[trigger] f2[j]).0.page_number
                && f1[j].0.db_size_after_commit == f2[j].0.db_size_after_commit && f1[j].1
                == f2[j].1,
    ensures
        spec_stream_cksum(h1, f1, i) == spec_stream_cksum(h2, f2, i),
    decreases i,
{
    if i > 0 {
        lemma_checksum_locality(h1, h2, f1, f2, i - 1);
    }
}

/// The header checksum is local to the first 24 emitted header bytes: two
/// headers whose emissions agree there carry the same checksum pair.
pub proof fn lemma_header_checksum_locality(h1: WalHeader, h2: WalHeader)
    requires
        spec_wal_header_bytes(h1).subrange(0, 24) == spec_wal_header_bytes(h2).subrange(0, 24),
    ensures
        spec_wal_header_pair(h1) == spec_wal_header_pair(h2),
{
    let b1 = spec_wal_header_bytes(h1);
    let b2 = spec_wal_header_bytes(h2);
    assert(b1.subrange(4, 8) =~= u32_bytes(h1.file_format));
    assert(b1.subrange(8, 12) =~= u32_bytes(h1.page_size));
    assert(b1.subrange(12, 16) =~= u32_bytes(h1.checkpoint_seq));
    assert(b1.subrange(16, 20) =~= u32_bytes(h1.salt_1));
    assert(b1.subrange(20, 24) =~= u32_bytes(h1.salt_2));
    crate::db::lemma_be32_fields(b1, 4, h1.file_format);
    crate::db::lemma_be32_fields(b1, 8, h1.page_size);
    crate::db::lemma_be32_fields(b1, 12, h1.checkpoint_seq);
    crate::db::lemma_be32_fields(b1, 16, h1.salt_1);
    crate::db::lemma_be32_fields(b1, 20, h1.salt_2);
    assert(b2.subrange(4, 8) =~= u32_bytes(h2.file_format));
    assert(b2.subrange(8, 12) =~= u32_bytes(h2.page_size));
    assert(b2.subrange(12, 16) =~= u32_bytes(h2.checkpoint_seq));
    assert(b2.subrange(16, 20) =~= u32_bytes(h2.salt_1));
    assert(b2.subrange(20, 24) =~= u32_bytes(h2.salt_2));
    crate::db::lemma_be32_fields(b2, 4, h2.file_format);
    crate::db::lemma_be32_fields(b2, 8, h2.page_size);
    crate::db::lemma_be32_fields(b2, 12, h2.checkpoint_seq);
    crate::db::lemma_be32_fields(b2, 16, h2.salt_1);
    crate::db::lemma_be32_fields(b2, 20, h2.salt_2);
    assert forall|i: int| 0 <= i < 24 implies b1[i] == b2[i] by {
        assert(b1.subrange(0, 24)[i] == b1[i]);
        assert(b2.subrange(0, 24)[i] == b2[i]);
    }
    assert(h1.file_format == h2.file_format) by {
        crate::db::lemma_be32_fields(b2, 4, h1.file_format);
    }
    assert(h1.page_size == h2.page_size) by {
        crate::db::lemma_be32_fields(b2, 8, h1.page_size);
    }
    assert(h1.checkpoint_seq == h2.checkpoint_seq) by {
        crate::db::lemma_be32_fields(b2, 12, h1.checkpoint_seq);
    }
    assert(h1.salt_1 == h2.salt_1) by {
        crate::db::lemma_be32_fields(b2, 16, h1.salt_1);
    }
    assert(h1.salt_2 == h2.salt_2) by {
        crate::db::lemma_be32_fields(b2, 20, h1.salt_2);
    }
    assert(spec_wal_header_words(h1) =~= spec_wal_header_words(h2));
}

} // verus!
