//! Applying a WAL onto a database ("backfilling"), synthesising a database
//! from a WAL alone, and merging WALs.
//!
//! Every frame is applied in order: a frame for page 1 re-decodes the
//! database header from its image and replaces both; a frame for a present
//! page replaces the page; a frame for an absent page inserts it and grows
//! the declared page count. A commit frame that asks the database to shrink
//! is reported as `TruncationRequired`, never executed.

use vstd::prelude::*;
use std::collections::HashMap;
use crate::db::{decode_header, encode_header, spec_db_header_bytes, spec_parse_db_header};
use crate::error::{Error, ErrorKind};
use crate::types::{Db, DbHeader, Page, Wal, WalFrameHeader};
use crate::wal::FrameModel;

verus! {

broadcast use vstd::std_specs::hash::group_hash_axioms;

/// One frame applied to a database state, before the truncation check: the
/// header-replacement rule for page 1, replacement for a present page,
/// insertion and count growth for an absent one.
pub open spec fn spec_apply_frame(
    h: DbHeader,
    pages: Map<u32, Seq<u8>>,
    fh: WalFrameHeader,
    data: Seq<u8>,
) -> Result<(DbHeader, Map<u32, Seq<u8>>), ErrorKind> {
    if fh.page_number == 1 {
        match spec_parse_db_header(data) {
            Err(k) => Err(k),
            Ok(nh) => Ok((nh, pages.insert(1u32, data))),
        }
    } else if pages.contains_key(fh.page_number) {
        Ok((h, pages.insert(fh.page_number, data)))
    } else if h.db_size == 0xffff_ffffu32 {
        Err(ErrorKind::Overflow)
    } else {
        Ok(
            (
                DbHeader { db_size: (h.db_size + 1) as u32, ..h },
                pages.insert(fh.page_number, data),
            ),
        )
    }
}

/// One whole frame step: application, then the truncation check — a
/// non-zero commit size below one less than the current count stops the
/// backfill with `TruncationRequired`.
pub open spec fn spec_frame_step(
    h: DbHeader,
    pages: Map<u32, Seq<u8>>,
    fh: WalFrameHeader,
    data: Seq<u8>,
) -> Result<(DbHeader, Map<u32, Seq<u8>>), ErrorKind> {
    match spec_apply_frame(h, pages, fh, data) {
        Err(k) => Err(k),
        Ok((h2, p2)) => {
            if fh.db_size_after_commit != 0 && fh.db_size_after_commit < h2.db_size - 1 {
                Err(ErrorKind::TruncationRequired)
            } else {
                Ok((h2, p2))
            }
        },
    }
}

/// Every frame applied in order; the first failing step stops the fold.
pub open spec fn spec_backfill_frames(
    h: DbHeader,
    pages: Map<u32, Seq<u8>>,
    frames: Seq<FrameModel>,
) -> Result<(DbHeader, Map<u32, Seq<u8>>), ErrorKind>
    decreases frames.len(),
{
    if frames.len() == 0 {
        Ok((h, pages))
    } else {
        match spec_frame_step(h, pages, frames[0].0, frames[0].1) {
            Err(k) => Err(k),
            Ok((h2, p2)) => spec_backfill_frames(h2, p2, frames.skip(1)),
        }
    }
}

/// A whole backfill: the page sizes must agree, then every frame is applied
/// in order.
pub open spec fn spec_backfill(
    h: DbHeader,
    pages: Map<u32, Seq<u8>>,
    wal_header: crate::types::WalHeader,
    frames: Seq<FrameModel>,
) -> Result<(DbHeader, Map<u32, Seq<u8>>), ErrorKind> {
    if h.page_size != wal_header.page_size {
        Err(ErrorKind::PageSizeMismatch)
    } else {
        spec_backfill_frames(h, pages, frames)
    }
}

/// Moves a WAL's content onto a database: every frame is applied in order,
/// exactly as `spec_backfill` says. A failure mid-stream leaves the
/// database in the state the applied prefix produced.
pub fn backfill(db: &mut Db, wal: &Wal) -> (r: Result<(), Error>)
    requires
        forall|i: int|
            0 <= i < wal.frames@.len() ==> (#[trigger] wal.frames@[i]).data@.len()
                == wal.header.page_size,
    ensures
        match r {
            Ok(()) => spec_backfill(
                old(db).header,
                old(db).page_map(),
                wal.header,
                wal.frames_model(),
            ) == Ok::<(DbHeader, Map<u32, Seq<u8>>), ErrorKind>(
                (final(db).header, final(db).page_map()),
            ),
            Err(e) => spec_backfill(
                old(db).header,
                old(db).page_map(),
                wal.header,
                wal.frames_model(),
            ) == Err::<(DbHeader, Map<u32, Seq<u8>>), ErrorKind>(e.kind),
        },
{
    if db.header.page_size != wal.header.page_size {
        return Err(
            Error::new(ErrorKind::PageSizeMismatch, "WAL and database page sizes disagree"),
        );
    }
    let ghost fm = wal.frames_model();
    proof {
        assert(fm.skip(0) =~= fm);
    }
    let n = wal.frames.len();
    let mut i: usize = 0;
    while i < n
        invariant
            i <= n,
            n == wal.frames@.len(),
            fm == wal.frames_model(),
            old(db).header.page_size == wal.header.page_size,
            forall|j: int|
                0 <= j < wal.frames@.len() ==> (#[trigger] wal.frames@[j]).data@.len()
                    == wal.header.page_size,
            spec_backfill_frames(old(db).header, old(db).page_map(), fm) == spec_backfill_frames(
                db.header,
                db.page_map(),
                fm.skip(i as int),
            ),
        decreases n - i,
    {
        let frame = &wal.frames[i];
        let ghost pre_h = db.header;
        let ghost pre_p = db.page_map();
        let pn = frame.header.page_number;
        let data = vstd::slice::slice_to_vec(frame.data.as_slice());
        if pn == 1 {
            let nh = match decode_header(data.as_slice()) {
                Ok(nh) => nh,
                Err(e) => {
                    proof {
                        assert(fm.skip(i as int)[0] == fm[i as int]);
                    }
                    return Err(e);
                },
            };
            db.header = nh;
            db.pages.insert(1, data);
        } else if db.pages.contains_key(&pn) {
            db.pages.insert(pn, data);
        } else if db.header.db_size == 0xffff_ffff {
            proof {
                assert(fm.skip(i as int)[0] == fm[i as int]);
            }
            return Err(
                Error::new(ErrorKind::Overflow, "page count cannot grow past its 32-bit field"),
            );
        } else {
            db.header.db_size = db.header.db_size + 1;
            db.pages.insert(pn, data);
        }
        proof {
            assert(fm.skip(i as int)[0] == fm[i as int]);
            assert(db.page_map() =~= pre_p.insert(pn, fm[i as int].1));
            assert(spec_apply_frame(pre_h, pre_p, fm[i as int].0, fm[i as int].1) == Ok::<
                (DbHeader, Map<u32, Seq<u8>>),
                ErrorKind,
            >((db.header, db.page_map())));
        }
        let commit = frame.header.db_size_after_commit;
        if commit != 0 && (commit as u64) + 1 < db.header.db_size as u64 {
            proof {
                assert(spec_frame_step(pre_h, pre_p, fm[i as int].0, fm[i as int].1)
                    == Err::<(DbHeader, Map<u32, Seq<u8>>), ErrorKind>(
                    ErrorKind::TruncationRequired,
                ));
            }
            return Err(
                Error::new(
                    ErrorKind::TruncationRequired,
                    "a commit frame asks the database to shrink",
                ),
            );
        }
        proof {
            assert(spec_frame_step(pre_h, pre_p, fm[i as int].0, fm[i as int].1) == Ok::<
                (DbHeader, Map<u32, Seq<u8>>),
                ErrorKind,
            >((db.header, db.page_map())));
            assert(fm.skip(i as int).skip(1) =~= fm.skip(i + 1));
        }
        i = i + 1;
    }
    proof {
        assert(fm.skip(n as int) =~= Seq::<FrameModel>::empty());
    }
    Ok(())
}

/// A backfill split at any point is the fold of the first frames continued
/// over the rest.
pub proof fn lemma_backfill_split(
    h: DbHeader,
    pages: Map<u32, Seq<u8>>,
    frames: Seq<FrameModel>,
    i: int,
)
    requires
        0 <= i <= frames.len(),
    ensures
        spec_backfill_frames(h, pages, frames) == (match spec_backfill_frames(
            h,
            pages,
            frames.take(i),
        ) {
            Ok((h2, p2)) => spec_backfill_frames(h2, p2, frames.skip(i)),
            Err(k) => Err(k),
        }),
    decreases i,
{
    if i == 0 {
        assert(frames.take(0) =~= Seq::<FrameModel>::empty());
        assert(frames.skip(0) =~= frames);
    } else {
        assert(frames.take(i)[0] == frames[0]);
        match spec_frame_step(h, pages, frames[0].0, frames[0].1) {
            Err(k) => {},
            Ok((h2, p2)) => {
                lemma_backfill_split(h2, p2, frames.skip(1), i - 1);
                assert(frames.skip(1).take(i - 1) =~= frames.take(i).skip(1));
                assert(frames.skip(1).skip(i - 1) =~= frames.skip(i));
            },
        }
    }
}

/// Truncation refusal: when the frames up to `i` apply cleanly and frame `i`
/// carries a non-zero commit size smaller than one less than the count its
/// application leaves, the whole backfill stops with `TruncationRequired`.
pub proof fn lemma_truncation_refusal(
    h: DbHeader,
    pages: Map<u32, Seq<u8>>,
    frames: Seq<FrameModel>,
    i: int,
)
    requires
        0 <= i < frames.len(),
        spec_backfill_frames(h, pages, frames.take(i)) is Ok,
        ({
            let mid = spec_backfill_frames(h, pages, frames.take(i))->Ok_0;
            &&& spec_apply_frame(mid.0, mid.1, frames[i].0, frames[i].1) is Ok
            &&& 0 < frames[i].0.db_size_after_commit
            &&& frames[i].0.db_size_after_commit < spec_apply_frame(
                mid.0,
                mid.1,
                frames[i].0,
                frames[i].1,
            )->Ok_0.0.db_size - 1
        }),
    ensures
        spec_backfill_frames(h, pages, frames) == Err::<(DbHeader, Map<u32, Seq<u8>>), ErrorKind>(
            ErrorKind::TruncationRequired,
        ),
{
    lemma_backfill_split(h, pages, frames, i);
    let mid = spec_backfill_frames(h, pages, frames.take(i))->Ok_0;
    assert(frames.skip(i).len() > 0);
    assert(frames.skip(i)[0] == frames[i]);
    assert(spec_frame_step(mid.0, mid.1, frames[i].0, frames[i].1) == Err::<
        (DbHeader, Map<u32, Seq<u8>>),
        ErrorKind,
    >(ErrorKind::TruncationRequired));
}

/// Frames that grow a dense database densely: no frame touches page 1, and
/// each frame's page number stays within one past the count as it stands
/// when the frame is applied.
pub open spec fn spec_dense_growth(n0: int, frames: Seq<FrameModel>) -> bool
    decreases frames.len(),
{
    if frames.len() == 0 {
        true
    } else {
        let pn = frames[0].0.page_number as int;
        &&& 2 <= pn <= n0 + 1
        &&& spec_dense_growth(
            if pn == n0 + 1 {
                n0 + 1
            } else {
                n0
            },
            frames.skip(1),
        )
    }
}

/// Backfill monotonicity: over a dense database and densely growing frames,
/// a successful backfill never shrinks the declared page count, ends with
/// every frame's page number within the count, and keeps the page map
/// dense. Frames for page 1 are excluded: such a frame replaces the whole
/// header with the one its image stores, count included.
pub proof fn lemma_backfill_monotonic(
    h: DbHeader,
    pages: Map<u32, Seq<u8>>,
    frames: Seq<FrameModel>,
)
    requires
        spec_backfill_frames(h, pages, frames) is Ok,
        spec_dense_growth(h.db_size as int, frames),
        forall|k: u32| pages.contains_key(k) <==> 1 <= k <= h.db_size,
    ensures
        ({
            let out = spec_backfill_frames(h, pages, frames)->Ok_0;
            &&& out.0.db_size >= h.db_size
            &&& forall|i: int|
                0 <= i < frames.len() ==> (#[trigger] frames[i]).0.page_number <= out.0.db_size
            &&& forall|k: u32| out.1.contains_key(k) <==> 1 <= k <= out.0.db_size
        }),
    decreases frames.len(),
{
    if frames.len() > 0 {
        let pn = frames[0].0.page_number;
        let data = frames[0].1;
        let out = spec_backfill_frames(h, pages, frames)->Ok_0;
        match spec_frame_step(h, pages, frames[0].0, data) {
            Err(k) => {
                assert(false);
            },
            Ok((h2, p2)) => {
                if pages.contains_key(pn) {
                    assert(h2 == h);
                    assert(forall|k: u32| p2.contains_key(k) <==> 1 <= k <= h2.db_size);
                } else {
                    assert(pn == h.db_size + 1);
                    assert(h2.db_size == h.db_size + 1);
                    assert(forall|k: u32| p2.contains_key(k) <==> 1 <= k <= h2.db_size);
                }
                assert(spec_dense_growth(h2.db_size as int, frames.skip(1)));
                lemma_backfill_monotonic(h2, p2, frames.skip(1));
                assert(out == spec_backfill_frames(h2, p2, frames.skip(1))->Ok_0);
                assert(pn <= h2.db_size <= out.0.db_size);
                assert forall|i: int|
                    0 <= i < frames.len() implies (#[trigger] frames[i]).0.page_number
                    <= out.0.db_size by {
                    if i > 0 {
                        assert(frames[i] == frames.skip(1)[i - 1]);
                    }
                }
            },
        }
    }
}

/// One frame written straight into raw database bytes: the buffer grows
/// with zeros up to the frame's page slot if it must, and the page image
/// replaces the slot.
pub open spec fn spec_splice_frame(
    b: Seq<u8>,
    fh: WalFrameHeader,
    data: Seq<u8>,
    ps: int,
) -> Seq<u8> {
    let off = (fh.page_number - 1) * ps;
    let grown = if b.len() < off + ps {
        b + Seq::new((off + ps - b.len()) as nat, |i: int| 0u8)
    } else {
        b
    };
    grown.subrange(0, off) + data + grown.subrange(off + ps, grown.len() as int)
}

/// Every frame spliced into raw database bytes, in order.
pub open spec fn spec_backfill_bytes_frames(b: Seq<u8>, frames: Seq<FrameModel>, ps: int) -> Seq<
    u8,
>
    decreases frames.len(),
{
    if frames.len() == 0 {
        b
    } else {
        spec_backfill_bytes_frames(
            spec_splice_frame(b, frames[0].0, frames[0].1, ps),
            frames.skip(1),
            ps,
        )
    }
}

/// Moves a WAL's content onto raw database bytes, page slot by page slot,
/// growing the buffer where a frame writes past its end. The header is
/// decoded only to check the page size; it is not rewritten.
pub fn backfill_bytes(wal: &Wal, db_bytes: &mut Vec<u8>) -> (r: Result<(), Error>)
    requires
        forall|i: int|
            0 <= i < wal.frames@.len() ==> (#[trigger] wal.frames@[i]).data@.len()
                == wal.header.page_size,
        forall|i: int| 0 <= i < wal.frames@.len() ==> (#[trigger] wal.frames@[i]).header.page_number
            >= 1,
        forall|i: int|
            0 <= i < wal.frames@.len() ==> (#[trigger] wal.frames@[i]).header.page_number as int
                * wal.header.page_size as int <= usize::MAX,
    ensures
        match r {
            Ok(()) => {
                &&& spec_parse_db_header(old(db_bytes)@) matches Ok(h)
                &&& spec_parse_db_header(old(db_bytes)@)->Ok_0.page_size == wal.header.page_size
                &&& final(db_bytes)@ == spec_backfill_bytes_frames(
                    old(db_bytes)@,
                    wal.frames_model(),
                    wal.header.page_size as int,
                )
            },
            Err(e) => {
                &&& final(db_bytes)@ == old(db_bytes)@
                &&& match spec_parse_db_header(old(db_bytes)@) {
                    Err(k) => k == e.kind,
                    Ok(h) => h.page_size != wal.header.page_size && e.kind
                        == ErrorKind::PageSizeMismatch,
                }
            },
        },
{
    let header = match decode_header(db_bytes.as_slice()) {
        Ok(h) => h,
        Err(e) => { return Err(e) },
    };
    if header.page_size != wal.header.page_size {
        return Err(
            Error::new(ErrorKind::PageSizeMismatch, "WAL and database page sizes disagree"),
        );
    }
    let ghost fm = wal.frames_model();
    proof {
        assert(fm.skip(0) =~= fm);
    }
    let ps = wal.header.page_size as usize;
    let n = wal.frames.len();
    let mut i: usize = 0;
    while i < n
        invariant
            i <= n,
            n == wal.frames@.len(),
            fm == wal.frames_model(),
            ps == wal.header.page_size,
            forall|j: int|
                0 <= j < wal.frames@.len() ==> (#[trigger] wal.frames@[j]).data@.len()
                    == wal.header.page_size,
            forall|j: int|
                0 <= j < wal.frames@.len() ==> (#[trigger] wal.frames@[j]).header.page_number >= 1,
            forall|j: int|
                0 <= j < wal.frames@.len() ==> (#[trigger] wal.frames@[j]).header.page_number
                    as int * wal.header.page_size as int <= usize::MAX,
            spec_backfill_bytes_frames(old(db_bytes)@, fm, ps as int)
                == spec_backfill_bytes_frames(db_bytes@, fm.skip(i as int), ps as int),
        decreases n - i,
    {
        let frame = &wal.frames[i];
        let ghost pre = db_bytes@;
        let pn = frame.header.page_number;
        proof {
            assert((pn - 1) * ps as int == pn as int * ps as int - ps as int) by (nonlinear_arith);
            assert((pn - 1) * ps as int >= 0) by (nonlinear_arith)
                requires
                    pn >= 1,
                    ps as int >= 0;
        }
        let off = (pn - 1) as usize * ps;
        let end = off + ps;
        while db_bytes.len() < end
            invariant
                pre.len() <= db_bytes@.len(),
                db_bytes@.len() <= end || db_bytes@ == pre,
                db_bytes@ == pre + Seq::new((db_bytes@.len() - pre.len()) as nat, |k: int| 0u8),
            decreases end - db_bytes@.len(),
        {
            db_bytes.push(0);
            proof {
                assert(db_bytes@ =~= pre + Seq::new(
                    (db_bytes@.len() - pre.len()) as nat,
                    |k: int| 0u8,
                ));
            }
        }
        let ghost grown = db_bytes@;
        proof {
            if pre.len() < end {
                assert(grown =~= pre + Seq::new((end - pre.len()) as nat, |k: int| 0u8));
            } else {
                assert(grown =~= pre);
            }
        }
        let mut j: usize = 0;
        while j < ps
            invariant
                j <= ps,
                off + ps <= grown.len(),
                off + ps <= usize::MAX,
                grown.len() == db_bytes@.len(),
                i < n,
                n == wal.frames@.len(),
                ps == wal.header.page_size,
                frame.data@ == wal.frames@[i as int].data@,
                wal.frames@[i as int].data@.len() == ps,
                db_bytes@ == grown.subrange(0, off as int) + wal.frames@[i as int].data@.subrange(
                    0,
                    j as int,
                ) + grown.subrange(off + j, grown.len() as int),
            decreases ps - j,
        {
            let byte = frame.data[j];
            db_bytes[off + j] = byte;
            proof {
                assert(db_bytes@ =~= grown.subrange(0, off as int)
                    + wal.frames@[i as int].data@.subrange(0, j + 1) + grown.subrange(
                    off + j + 1,
                    grown.len() as int,
                ));
            }
            j = j + 1;
        }
        proof {
            assert(fm.skip(i as int)[0] == fm[i as int]);
            assert(wal.frames@[i as int].data@.subrange(0, ps as int) =~= fm[i as int].1);
            assert(db_bytes@ =~= spec_splice_frame(pre, fm[i as int].0, fm[i as int].1, ps as int));
            assert(fm.skip(i as int).skip(1) =~= fm.skip(i + 1));
        }
        i = i + 1;
    }
    proof {
        assert(fm.skip(n as int) =~= Seq::<FrameModel>::empty());
    }
    Ok(())
}

/// The zeroed first page of a fresh database: the encoded header template,
/// padded with zeros to one page.
pub open spec fn spec_template_page(h: DbHeader) -> Seq<u8> {
    spec_db_header_bytes(h) + Seq::new((h.page_size - 100) as nat, |i: int| 0u8)
}

/// Fabricates a database from a WAL alone: a zeroed page 1 carries the
/// encoded header template, then the whole WAL is backfilled onto it.
pub fn to_db(db_header: &DbHeader, wal: &Wal) -> (r: Result<Db, Error>)
    requires
        db_header.wf(),
        forall|i: int|
            0 <= i < wal.frames@.len() ==> (#[trigger] wal.frames@[i]).data@.len()
                == wal.header.page_size,
    ensures
        match r {
            Ok(db) => spec_backfill(
                *db_header,
                Map::<u32, Seq<u8>>::empty().insert(1u32, spec_template_page(*db_header)),
                wal.header,
                wal.frames_model(),
            ) == Ok::<(DbHeader, Map<u32, Seq<u8>>), ErrorKind>((db.header, db.page_map())),
            Err(e) => spec_backfill(
                *db_header,
                Map::<u32, Seq<u8>>::empty().insert(1u32, spec_template_page(*db_header)),
                wal.header,
                wal.frames_model(),
            ) == Err::<(DbHeader, Map<u32, Seq<u8>>), ErrorKind>(e.kind),
        },
{
    let mut first_page = match encode_header(db_header) {
        Ok(v) => v,
        Err(e) => {
            proof {
                assert(false);
            }
            return Err(e);
        },
    };
    let mut i: usize = 100;
    while i < db_header.page_size as usize
        invariant
            100 <= i,
            i <= db_header.page_size || db_header.page_size < 100,
            db_header.page_size <= 65536,
            first_page@ == spec_db_header_bytes(*db_header) + Seq::new(
                (i - 100) as nat,
                |j: int| 0u8,
            ),
        decreases db_header.page_size as int - i,
    {
        first_page.push(0);
        assert(first_page@ =~= spec_db_header_bytes(*db_header) + Seq::new(
            (i + 1 - 100) as nat,
            |j: int| 0u8,
        ));
        i = i + 1;
    }
    assert(first_page@ == spec_template_page(*db_header));
    let mut pages: HashMap<u32, Page> = HashMap::new();
    pages.insert(1, first_page);
    let mut db = Db { header: *db_header, pages };
    proof {
        assert(db.header == *db_header);
        assert(db.page_map() =~= Map::<u32, Seq<u8>>::empty().insert(
            1u32,
            spec_template_page(*db_header),
        ));
    }
    let r = backfill(&mut db, wal);
    match r {
        Ok(()) => Ok(db),
        Err(e) => Err(e),
    }
}

/// Appends a second WAL's frames to a first. The salts of the two inputs
/// are not reconciled: a faithful re-emission needs the salts rewritten to
/// a single pair first.
pub fn merge(wal1: &mut Wal, wal2: &Wal) -> (r: Result<(), Error>)
    ensures
        r is Ok,
        final(wal1).header == old(wal1).header,
        final(wal1).frames_model() == old(wal1).frames_model() + wal2.frames_model(),
{
    let n = wal2.frames.len();
    proof {
        assert(old(wal1).frames_model() + wal2.frames_model().subrange(0, 0) =~= old(
            wal1,
        ).frames_model());
    }
    let mut i: usize = 0;
    while i < n
        invariant
            i <= n,
            n == wal2.frames@.len(),
            wal1.header == old(wal1).header,
            wal1.frames_model() == old(wal1).frames_model() + wal2.frames_model().subrange(
                0,
                i as int,
            ),
        decreases n - i,
    {
        let frame = &wal2.frames[i];
        let data = vstd::slice::slice_to_vec(frame.data.as_slice());
        let ghost before = wal1.frames_model();
        wal1.frames.push(crate::types::WalFrame { header: frame.header, data });
        proof {
            assert forall|j: int|
                0 <= j < wal1.frames@.len() implies #[trigger] wal1.frames_model()[j] == (before
                + seq![(frame.header, frame.data@)])[j] by {
                if j < before.len() {
                    assert(wal1.frames_model()[j] == wal1.frames@[j].model());
                    assert(before[j] == wal1.frames@[j].model());
                }
            }
            assert(wal1.frames_model() =~= before + seq![(frame.header, frame.data@)]);
            assert(wal2.frames_model()[i as int] == (frame.header, frame.data@));
            assert(before + seq![(frame.header, frame.data@)] =~= old(wal1).frames_model()
                + wal2.frames_model().subrange(0, i + 1));
        }
        i = i + 1;
    }
    proof {
        assert(wal2.frames_model().subrange(0, n as int) =~= wal2.frames_model());
    }
    Ok(())
}

} // verus!
