//! WAL codec tests: the checksum fixture, the decode-encode round trip with
//! its checksum stream, and the rejection of bad magic, formats and salts.

use sqlite_codec::error::ErrorKind;
use sqlite_codec::types::{checksum, Wal, WalFrame, WalFrameHeader, WalHeader, MAGIC_NUMBER_1,
    MAGIC_NUMBER_2, SUPPORTED_FILE_FORMAT};
use sqlite_codec::wal::{decode, encode};

fn sample_header(page_size: u32) -> WalHeader {
    WalHeader {
        magic_number: MAGIC_NUMBER_2,
        file_format: SUPPORTED_FILE_FORMAT,
        page_size,
        checkpoint_seq: 0,
        salt_1: 1,
        salt_2: 2,
        checksum_1: 3,
        checksum_2: 4,
    }
}

#[test]
fn test_calc_checksum_wal_frame() {
    let header = sample_header(4096);
    let (s0, s1) = header.checksum();
    assert_eq!((s0, s1), (369419992, 3168652947));
}

#[test]
fn checksum_pairs_words() {
    assert_eq!(checksum(&[], None, None), (0, 0));
    assert_eq!(checksum(&[], Some(5), Some(6)), (5, 6));
    let (s1, s2) = checksum(&[1, 2], None, None);
    assert_eq!((s1, s2), (1, 3));
    let (s1, s2) = checksum(&[1, 2, 3, 4], Some(0), Some(0));
    assert_eq!(s1, 1u32.wrapping_add(3).wrapping_add(3));
    assert_eq!(s2, 3u32.wrapping_add(4).wrapping_add(s1));
}

#[test]
fn header_checksum_ignores_the_stored_pair() {
    // The pair covers only the first 24 emitted header bytes; the stored
    // checksum words play no part in it.
    let a = sample_header(4096);
    let mut b = sample_header(4096);
    b.checksum_1 = 0xdead;
    b.checksum_2 = 0xbeef;
    assert_eq!(a.checksum(), b.checksum());
}

fn frame(page_number: u32, commit: u32, fill: u8, ps: u32) -> WalFrame {
    WalFrame {
        header: WalFrameHeader {
            page_number,
            db_size_after_commit: commit,
            salt_1: 1,
            salt_2: 2,
            checksum_1: 0,
            checksum_2: 0,
        },
        data: vec![fill; ps as usize],
    }
}

#[test]
fn wal_round_trip() {
    let ps = 16u32;
    let wal = Wal { header: sample_header(ps), frames: vec![frame(2, 0, 0xaa, ps), frame(3, 3, 0xbb, ps)] };
    let bytes = encode(wal).unwrap();
    assert_eq!(bytes.len(), 32 + 2 * (24 + 16));
    let back = decode(&bytes).unwrap();
    assert_eq!(back.header.magic_number, MAGIC_NUMBER_2);
    assert_eq!(back.header.page_size, ps);
    assert_eq!(back.frames.len(), 2);
    assert_eq!(back.frames[0].header.page_number, 2);
    assert_eq!(back.frames[0].data, vec![0xaa; 16]);
    assert_eq!(back.frames[1].header.db_size_after_commit, 3);
    // The stored checksums now carry the canonical stream: a re-encode is
    // byte-identical.
    let again = encode(back).unwrap();
    assert_eq!(again, bytes);
}

#[test]
fn wal_decode_permits_trailing_padding() {
    let ps = 16u32;
    let wal = Wal { header: sample_header(ps), frames: vec![frame(2, 0, 0x11, ps)] };
    let mut bytes = encode(wal).unwrap();
    bytes.extend(std::iter::repeat(0u8).take(10));
    let back = decode(&bytes).unwrap();
    assert_eq!(back.frames.len(), 1);
}

#[test]
fn wal_decode_accepts_first_magic() {
    let ps = 16u32;
    let wal = Wal { header: sample_header(ps), frames: vec![] };
    let mut bytes = encode(wal).unwrap();
    // Rewrite the magic word to the little-endian variant.
    bytes[0..4].copy_from_slice(&[0x37, 0x7f, 0x06, 0x82]);
    let back = decode(&bytes).unwrap();
    assert_eq!(back.header.magic_number, MAGIC_NUMBER_1);
}

#[test]
fn wal_decode_rejects_bad_magic() {
    let mut bytes = encode(Wal { header: sample_header(16), frames: vec![] }).unwrap();
    bytes[0] = 0;
    let e = decode(&bytes).unwrap_err();
    assert_eq!(e.kind(), ErrorKind::InvalidMagic);
}

#[test]
fn wal_decode_rejects_unsupported_format() {
    let mut bytes = encode(Wal { header: sample_header(16), frames: vec![] }).unwrap();
    bytes[7] = 0xff;
    let e = decode(&bytes).unwrap_err();
    assert_eq!(e.kind(), ErrorKind::UnsupportedFormat);
}

#[test]
fn wal_decode_rejects_salt_mismatch() {
    let ps = 16u32;
    let wal = Wal { header: sample_header(ps), frames: vec![frame(2, 0, 0x11, ps)] };
    let mut bytes = encode(wal).unwrap();
    // The frame's first salt starts at byte 40: flip it.
    bytes[43] ^= 1;
    let e = decode(&bytes).unwrap_err();
    assert_eq!(e.kind(), ErrorKind::SaltMismatch);
}

#[test]
fn wal_encode_rejects_misaligned_payload() {
    let header = sample_header(10);
    let wal = Wal {
        header,
        frames: vec![WalFrame {
            header: WalFrameHeader {
                page_number: 2,
                db_size_after_commit: 0,
                salt_1: 1,
                salt_2: 2,
                checksum_1: 0,
                checksum_2: 0,
            },
            data: vec![0u8; 10],
        }],
    };
    let e = encode(wal).unwrap_err();
    assert_eq!(e.kind(), ErrorKind::ChecksumMisaligned);
}

#[test]
fn wal_salts_are_rewritten_everywhere() {
    let ps = 8u32;
    let wal = Wal { header: sample_header(ps), frames: vec![frame(2, 0, 1, ps), frame(3, 0, 2, ps)] };
    let wal = wal.rewrite_salt_1(77).rewrite_salt_2(88);
    assert_eq!(wal.header.salt_1, 77);
    assert_eq!(wal.header.salt_2, 88);
    for f in &wal.frames {
        assert_eq!(f.header.salt_1, 77);
        assert_eq!(f.header.salt_2, 88);
    }
}
