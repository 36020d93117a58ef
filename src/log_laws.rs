//! What the log format guarantees: records read back as they were written,
//! long records are split into fragments, and a damaged checksum is caught.

use vstd::prelude::*;
use crate::log::{
    frame_type, lemma_mask_round_trip, lemma_unmask_injective, lemma_write_spec_bounds, le_bytes16,
    le_bytes32, le_u16, le_u32, mask_spec, read_spec, read_step, step_spec, unmask_spec,
    write_spec, crc32c, type_byte_of, RecordType, StatusCode, MAX_BLOCK_SIZE,
};

verus! {

proof fn lemma_le32_round_trip(v: u32)
    ensures
        le_u32(le_bytes32(v)) == v,
{
    assert(((v & 0xff) as u8 as u32) | ((((v >> 8u32) & 0xff) as u8 as u32) << 8u32) | ((((v
        >> 16u32) & 0xff) as u8 as u32) << 16u32) | ((((v >> 24u32) & 0xff) as u8 as u32) << 24u32)
        == v) by (bit_vector);
}

proof fn lemma_le16_round_trip(v: u16)
    ensures
        le_u16(le_bytes16(v)) == v,
{
    assert(((v & 0xff) as u8 as u16) | ((((v >> 8u16) & 0xff) as u8 as u16) << 8u16) == v)
        by (bit_vector);
}

/// Reading at the place where one step of writing began gives back that
/// step's frame.
proof fn lemma_read_step(
    src: Seq<u8>,
    pos: int,
    off: int,
    bs: int,
    chk: bool,
    rec: Seq<u8>,
    first: bool,
)
    requires
        7 < bs <= MAX_BLOCK_SIZE,
        0 <= off <= bs,
        0 <= pos,
        pos + step_spec(off, bs, rec, first).0.len() <= src.len(),
        src.subrange(pos, pos + step_spec(off, bs, rec, first).0.len()) == step_spec(
            off,
            bs,
            rec,
            first,
        ).0,
    ensures
        ({
            let st = step_spec(off, bs, rec, first);
            let t = type_byte_of(frame_type(first, st.2 == rec.len()));
            let pad = if bs - off < 7 { bs - off } else { 0 };
            &&& read_step(src, pos, off, bs, chk) == (
                Some(Ok::<(u8, Seq<u8>), StatusCode>((t, rec.subrange(0, st.2)))),
                pos + st.0.len(),
                st.1,
            )
            &&& st.0.len() == pad + 7 + st.2
            &&& le_u16(src.subrange(pos + pad + 4, pos + pad + 6)) as int == st.2
            &&& src[pos + pad + 6] == t
        }),
{
    let st = step_spec(off, bs, rec, first);
    let pad = if bs - off < 7 { bs - off } else { 0 };
    let off1 = if bs - off < 7 { 0 } else { off };
    let n = st.2;
    let t = type_byte_of(frame_type(first, n == rec.len()));
    let data = rec.subrange(0, n);
    let crc = crc32c(seq![t] + data);
    let w = st.0;
    let pos1 = pos + pad;
    assert(w.len() == pad + 7 + n);
    assert forall|k: int| 0 <= k < w.len() implies src[pos + k] == w[k] by {
        assert(src.subrange(pos, pos + w.len())[k] == w[k]);
    }
    assert(src.subrange(pos1, pos1 + 4) =~= le_bytes32(mask_spec(crc))) by {
        assert forall|k: int| 0 <= k < 4 implies #[trigger] src.subrange(pos1, pos1 + 4)[k] == le_bytes32(
            mask_spec(crc),
        )[k] by {
            assert(src[pos + pad + k] == w[pad + k]);
        }
    }
    assert(src.subrange(pos1 + 4, pos1 + 6) =~= le_bytes16(n as u16)) by {
        assert forall|k: int| 0 <= k < 2 implies #[trigger] src.subrange(pos1 + 4, pos1 + 6)[k] == le_bytes16(
            n as u16,
        )[k] by {
            assert(src[pos + pad + 4 + k] == w[pad + 4 + k]);
        }
    }
    assert(src[pos1 + 6] == w[pad + 6]);
    assert(src.subrange(pos1 + 7, pos1 + 7 + n) =~= data) by {
        assert forall|k: int| 0 <= k < n implies src.subrange(pos1 + 7, pos1 + 7 + n)[k]
            == data[k] by {
            assert(src[pos + pad + 7 + k] == w[pad + 7 + k]);
        }
    }
    lemma_le32_round_trip(mask_spec(crc));
    lemma_le16_round_trip(n as u16);
    lemma_mask_round_trip(crc);
}

/// Reading at the place where writing a record began gives back the
/// record, whatever follows it, and ends where writing ended.
#[verifier::rlimit(50)]
pub proof fn lemma_read_record(
    src: Seq<u8>,
    pos: int,
    off: int,
    bs: int,
    chk: bool,
    rec: Seq<u8>,
    first: bool,
    acc: Seq<u8>,
)
    requires
        7 < bs <= MAX_BLOCK_SIZE,
        0 <= off <= bs,
        0 <= pos,
        pos + write_spec(off, bs, rec, first).0.len() <= src.len(),
        src.subrange(pos, pos + write_spec(off, bs, rec, first).0.len()) == write_spec(
            off,
            bs,
            rec,
            first,
        ).0,
    ensures
        read_spec(src, pos, off, bs, chk, acc) == (
            Ok::<Seq<u8>, StatusCode>(acc + rec),
            pos + write_spec(off, bs, rec, first).0.len(),
            write_spec(off, bs, rec, first).1,
        ),
    decreases rec.len(), bs - off,
{
    let w = write_spec(off, bs, rec, first);
    let st = step_spec(off, bs, rec, first);
    assert(w.0 == if st.2 == rec.len() {
        st.0
    } else {
        st.0 + write_spec(st.1, bs, rec.subrange(st.2, rec.len() as int), false).0
    });
    assert(src.subrange(pos, pos + st.0.len()) =~= st.0) by {
        assert forall|k: int| 0 <= k < st.0.len() implies src.subrange(pos, pos + st.0.len())[k]
            == st.0[k] by {
            assert(src.subrange(pos, pos + w.0.len())[k] == w.0[k]);
        }
    }
    lemma_read_step(src, pos, off, bs, chk, rec, first);
    if st.2 == rec.len() {
        assert(rec.subrange(0, st.2) =~= rec);
    } else {
        let rest = rec.subrange(st.2, rec.len() as int);
        let nw = write_spec(st.1, bs, rest, false);
        lemma_write_spec_bounds(off, bs, rec, first);
        assert(st.1 == bs);
        let p2 = pos + st.0.len();
        assert(src.subrange(p2, p2 + nw.0.len()) =~= nw.0) by {
            assert forall|k: int| 0 <= k < nw.0.len() implies src.subrange(p2, p2 + nw.0.len())[k]
                == nw.0[k] by {
                assert(src.subrange(pos, pos + w.0.len())[st.0.len() + k] == w.0[st.0.len() + k]);
            }
        }
        lemma_read_record(src, p2, st.1, bs, chk, rest, false, acc + rec.subrange(0, st.2));
        assert(acc + rec.subrange(0, st.2) + rest =~= acc + rec);
    }
}

/// The stream that a writer starting at the beginning of a block produces
/// for `records`, added one after the other, and its block offset after.
pub open spec fn log_spec(records: Seq<Seq<u8>>, bs: int) -> (Seq<u8>, int)
    decreases records.len(),
{
    if records.len() == 0 {
        (Seq::empty(), 0)
    } else {
        let prev = log_spec(records.drop_last(), bs);
        let w = write_spec(prev.1, bs, records.last(), true);
        (prev.0 + w.0, w.1)
    }
}

/// What `k` successive reads return, starting at `pos` with block offset
/// `blk`.
pub open spec fn replay(src: Seq<u8>, pos: int, blk: int, bs: int, chk: bool, k: nat) -> Seq<
    Result<Seq<u8>, StatusCode>,
>
    decreases k,
{
    if k == 0 {
        Seq::empty()
    } else {
        let r = read_spec(src, pos, blk, bs, chk, Seq::empty());
        seq![r.0] + replay(src, r.1, r.2, bs, chk, (k - 1) as nat)
    }
}

proof fn lemma_log_prefix(records: Seq<Seq<u8>>, bs: int, j: int)
    requires
        7 < bs,
        0 <= j <= records.len(),
    ensures
        log_spec(records.take(j), bs).0.len() <= log_spec(records, bs).0.len(),
        log_spec(records, bs).0.subrange(0, log_spec(records.take(j), bs).0.len() as int)
            == log_spec(records.take(j), bs).0,
        0 <= log_spec(records, bs).1 <= bs,
    decreases records.len(),
{
    if records.len() > 0 {
        let prev = records.drop_last();
        lemma_log_prefix(prev, bs, 0);
        lemma_write_spec_bounds(log_spec(prev, bs).1, bs, records.last(), true);
        if j == records.len() {
            assert(records.take(j) =~= records);
            assert(log_spec(records, bs).0.subrange(0, log_spec(records, bs).0.len() as int)
                =~= log_spec(records, bs).0);
        } else {
            lemma_log_prefix(prev, bs, j);
            assert(prev.take(j) =~= records.take(j));
            let l = log_spec(records, bs).0;
            let lp = log_spec(prev, bs).0;
            let lj = log_spec(records.take(j), bs).0;
            assert(l.subrange(0, lj.len() as int) =~= lp.subrange(0, lj.len() as int));
        }
    } else {
        assert(records.take(j) =~= records);
        assert(log_spec(records, bs).0.subrange(0, 0) =~= Seq::<u8>::empty());
    }
}

#[verifier::rlimit(60)]
proof fn lemma_replay_from(records: Seq<Seq<u8>>, bs: int, chk: bool, i: int)
    requires
        7 < bs <= MAX_BLOCK_SIZE,
        0 <= i <= records.len(),
    ensures
        replay(
            log_spec(records, bs).0,
            log_spec(records.take(i), bs).0.len() as int,
            log_spec(records.take(i), bs).1,
            bs,
            chk,
            (records.len() - i) as nat,
        ) == records.subrange(i, records.len() as int).map_values(
            |r: Seq<u8>| Ok::<Seq<u8>, StatusCode>(r),
        ),
    decreases records.len() - i,
{
    let l = log_spec(records, bs).0;
    let expected = records.subrange(i, records.len() as int).map_values(
        |r: Seq<u8>| Ok::<Seq<u8>, StatusCode>(r),
    );
    if i == records.len() {
        assert(expected =~= Seq::empty());
    } else {
        let pi = log_spec(records.take(i), bs);
        let pn = log_spec(records.take(i + 1), bs);
        assert(records.take(i + 1).drop_last() =~= records.take(i));
        assert(records.take(i + 1).last() == records[i]);
        let w = write_spec(pi.1, bs, records[i], true);
        assert(pn.0 == pi.0 + w.0);
        lemma_log_prefix(records, bs, i + 1);
        lemma_log_prefix(records.take(i), bs, 0);
        let p = pi.0.len() as int;
        assert(l.subrange(p, p + w.0.len()) =~= w.0) by {
            assert forall|k: int| 0 <= k < w.0.len() implies l.subrange(p, p + w.0.len())[k]
                == w.0[k] by {
                assert(l.subrange(0, pn.0.len() as int)[p + k] == pn.0[p + k]);
            }
        }
        lemma_read_record(l, p, pi.1, bs, chk, records[i], true, Seq::empty());
        assert(Seq::<u8>::empty() + records[i] =~= records[i]);
        lemma_replay_from(records, bs, chk, i + 1);
        assert(expected =~= seq![Ok::<Seq<u8>, StatusCode>(records[i])]
            + records.subrange(i + 1, records.len() as int).map_values(
            |r: Seq<u8>| Ok::<Seq<u8>, StatusCode>(r),
        ));
    }
}

/// Records written one after the other from the start of a stream read back
/// in the same order and byte for byte, with checksums verified or not; the
/// read after the last one reports the end of the stream.
pub proof fn lemma_log_round_trip(records: Seq<Seq<u8>>, bs: int, chk: bool)
    requires
        7 < bs <= MAX_BLOCK_SIZE,
    ensures
        ({
            let log = log_spec(records, bs);
            &&& replay(log.0, 0, 0, bs, chk, records.len()) == records.map_values(
                |r: Seq<u8>| Ok::<Seq<u8>, StatusCode>(r),
            )
            &&& read_spec(log.0, log.0.len() as int, log.1, bs, chk, Seq::empty()).0 == Ok::<
                Seq<u8>,
                StatusCode,
            >(Seq::empty())
        }),
{
    lemma_replay_from(records, bs, chk, 0);
    assert(records.take(0) =~= Seq::<Seq<u8>>::empty());
    assert(records.subrange(0, records.len() as int) =~= records);
    lemma_log_prefix(records, bs, 0);
}

/// The types of the frames that writing `rec` produces, in order.
pub open spec fn frame_types(off: int, bs: int, rec: Seq<u8>, first: bool) -> Seq<RecordType>
    decreases rec.len(), bs - off,
{
    if bs <= 7 || off < 0 || off > bs {
        Seq::empty()
    } else {
        let st = step_spec(off, bs, rec, first);
        let t = frame_type(first, st.2 == rec.len());
        if st.2 == rec.len() {
            seq![t]
        } else {
            seq![t] + frame_types(st.1, bs, rec.subrange(st.2, rec.len() as int), false)
        }
    }
}

/// The room for data that the first frame has when the current block is
/// filled up to `off`.
pub open spec fn first_room(off: int, bs: int) -> int {
    if bs - off < 7 {
        bs - 7
    } else {
        bs - off - 7
    }
}

proof fn lemma_frame_types_tail(off: int, bs: int, rec: Seq<u8>)
    requires
        7 < bs,
        0 <= off <= bs,
        rec.len() > 0,
    ensures
        ({
            let ts = frame_types(off, bs, rec, false);
            &&& ts.len() >= 1
            &&& ts.last() == RecordType::Last
            &&& forall|i: int| 0 <= i < ts.len() - 1 ==> ts[i] == RecordType::Middle
        }),
    decreases rec.len(), bs - off,
{
    let st = step_spec(off, bs, rec, false);
    if st.2 != rec.len() {
        lemma_write_spec_bounds(off, bs, rec, false);
        let rest = rec.subrange(st.2, rec.len() as int);
        lemma_frame_types_tail(st.1, bs, rest);
        let tail = frame_types(st.1, bs, rest, false);
        let ts = frame_types(off, bs, rec, false);
        assert(ts == seq![RecordType::Middle] + tail);
        assert forall|i: int| 0 <= i < ts.len() - 1 implies ts[i] == RecordType::Middle by {
            if i > 0 {
                assert(ts[i] == tail[i - 1]);
            }
        }
    }
}

/// A record with more bytes than the first frame has room for (at the start
/// of a block: more than the block size less a header) is written as a
/// `First` frame, any number of `Middle` frames and a `Last` frame, and
/// reading those frames back gives the exact record.
pub proof fn lemma_split_record(off: int, bs: int, rec: Seq<u8>, chk: bool)
    requires
        7 < bs <= MAX_BLOCK_SIZE,
        0 <= off <= bs,
        rec.len() > first_room(off, bs),
    ensures
        ({
            let ts = frame_types(off, bs, rec, true);
            &&& ts.len() >= 2
            &&& ts[0] == RecordType::First
            &&& ts.last() == RecordType::Last
            &&& forall|i: int| 0 < i < ts.len() - 1 ==> ts[i] == RecordType::Middle
        }),
        read_spec(write_spec(off, bs, rec, true).0, 0, off, bs, chk, Seq::empty()).0 == Ok::<
            Seq<u8>,
            StatusCode,
        >(rec),
{
    let st = step_spec(off, bs, rec, true);
    lemma_write_spec_bounds(off, bs, rec, true);
    let rest = rec.subrange(st.2, rec.len() as int);
    lemma_frame_types_tail(st.1, bs, rest);
    let tail = frame_types(st.1, bs, rest, false);
    let ts = frame_types(off, bs, rec, true);
    assert(ts == seq![RecordType::First] + tail);
    assert forall|i: int| 0 < i < ts.len() - 1 implies ts[i] == RecordType::Middle by {
        assert(ts[i] == tail[i - 1]);
    }
    let w = write_spec(off, bs, rec, true).0;
    assert(w.subrange(0, w.len() as int) =~= w);
    lemma_read_record(w, 0, off, bs, chk, rec, true, Seq::empty());
    assert(Seq::<u8>::empty() + rec =~= rec);
}

proof fn lemma_le32_bytes_injective(a: Seq<u8>, b: Seq<u8>)
    requires
        a.len() == 4,
        b.len() == 4,
        a != b,
    ensures
        le_u32(a) != le_u32(b),
{
    let (a0, a1, a2, a3) = (a[0], a[1], a[2], a[3]);
    let (b0, b1, b2, b3) = (b[0], b[1], b[2], b[3]);
    assert(!(a0 == b0 && a1 == b1 && a2 == b2 && a3 == b3)) by {
        if a0 == b0 && a1 == b1 && a2 == b2 && a3 == b3 {
            assert(a =~= b);
        }
    }
    assert(!(a0 == b0 && a1 == b1 && a2 == b2 && a3 == b3) ==> (a0 as u32) | ((a1 as u32) << 8u32)
        | ((a2 as u32) << 16u32) | ((a3 as u32) << 24u32) != (b0 as u32) | ((b1 as u32) << 8u32) | ((
    b2 as u32) << 16u32) | ((b3 as u32) << 24u32)) by (bit_vector);
}

/// Reading depends only on the bytes from the current position on.
proof fn lemma_read_spec_local(
    s1: Seq<u8>,
    s2: Seq<u8>,
    pos: int,
    blk: int,
    bs: int,
    chk: bool,
    acc: Seq<u8>,
)
    requires
        0 <= pos <= s1.len(),
        s1.len() == s2.len(),
        s1.subrange(pos, s1.len() as int) == s2.subrange(pos, s2.len() as int),
    ensures
        read_spec(s1, pos, blk, bs, chk, acc) == read_spec(s2, pos, blk, bs, chk, acc),
    decreases s1.len() - pos,
{
    assert forall|k: int| pos <= k < s1.len() implies s1[k] == s2[k] by {
        assert(s1.subrange(pos, s1.len() as int)[k - pos] == s2.subrange(pos, s2.len() as int)[k
            - pos]);
    }
    if 0 <= blk <= bs && 7 < bs {
        let st = read_step(s1, pos, blk, bs, chk);
        let skip = bs - blk < 7;
        let pos1 = if skip {
            if pos + (bs - blk) < s1.len() {
                pos + (bs - blk)
            } else {
                s1.len() as int
            }
        } else {
            pos
        };
        if pos1 + 7 <= s1.len() {
            assert(s1.subrange(pos1, pos1 + 4) =~= s2.subrange(pos1, pos1 + 4));
            assert(s1.subrange(pos1 + 4, pos1 + 6) =~= s2.subrange(pos1 + 4, pos1 + 6));
            let n = le_u16(s1.subrange(pos1 + 4, pos1 + 6)) as int;
            if pos1 + 7 + n <= s1.len() {
                assert(s1.subrange(pos1 + 7, pos1 + 7 + n) =~= s2.subrange(pos1 + 7, pos1 + 7 + n));
            } else {
                assert(s1.subrange(pos1 + 7, s1.len() as int) =~= s2.subrange(
                    pos1 + 7,
                    s2.len() as int,
                ));
            }
        }
        assert(read_step(s2, pos, blk, bs, chk) == st);
        if st.1 > pos && st.1 <= s1.len() {
            assert(s1.subrange(st.1, s1.len() as int) =~= s2.subrange(st.1, s2.len() as int));
            match st.0 {
                Some(Ok((t, d))) => {
                    lemma_read_spec_local(s1, s2, st.1, st.2, bs, chk, acc + d);
                },
                _ => {},
            }
        }
    }
}

proof fn lemma_first_step(bs: int, rec: Seq<u8>)
    requires
        7 < bs <= MAX_BLOCK_SIZE,
    ensures
        ({
            let w = write_spec(0, bs, rec, true).0;
            let st = step_spec(0, bs, rec, true);
            &&& 7 <= st.0.len() <= w.len()
            &&& w.subrange(0, st.0.len() as int) == st.0
        }),
{
    let w = write_spec(0, bs, rec, true).0;
    let st = step_spec(0, bs, rec, true);
    if st.2 == rec.len() {
        assert(w == st.0);
        assert(w.subrange(0, st.0.len() as int) =~= st.0);
    } else {
        let next = write_spec(st.1, bs, rec.subrange(st.2, rec.len() as int), false).0;
        assert(w == st.0 + next);
        assert(w.subrange(0, st.0.len() as int) =~= st.0);
    }
}

#[verifier::rlimit(50)]
proof fn lemma_checksum_corruption_detected(bs: int, rec: Seq<u8>, i: int, b: u8)
    requires
        7 < bs <= MAX_BLOCK_SIZE,
        0 <= i < 4,
        b != write_spec(0, bs, rec, true).0[i],
    ensures
        read_spec(write_spec(0, bs, rec, true).0.update(i, b), 0, 0, bs, true, Seq::empty()).0
            == Err::<Seq<u8>, StatusCode>(StatusCode::Corruption),
{
    let w = write_spec(0, bs, rec, true).0;
    let bad = w.update(i, b);
    let st = step_spec(0, bs, rec, true);
    lemma_first_step(bs, rec);
    lemma_read_step(w, 0, 0, bs, true, rec, true);
    assert(bad.subrange(0, 4) != w.subrange(0, 4)) by {
        assert(bad.subrange(0, 4)[i] == b);
        assert(w.subrange(0, 4)[i] == w[i]);
    }
    lemma_le32_bytes_injective(bad.subrange(0, 4), w.subrange(0, 4));
    lemma_unmask_injective(le_u32(bad.subrange(0, 4)), le_u32(w.subrange(0, 4)));
    assert(bad.subrange(4, 6) =~= w.subrange(4, 6));
    let n = le_u16(w.subrange(4, 6)) as int;
    assert(bad.subrange(7, 7 + n) =~= w.subrange(7, 7 + n));
    assert(bad[6] == w[6]);
    let stored = le_u32(w.subrange(0, 4));
    let t = w[6];
    let data = w.subrange(7, 7 + n);
    assert(unmask_spec(stored) == crc32c(seq![t] + data));
    assert(read_step(bad, 0, 0, bs, true).0 == Some(Err::<(u8, Seq<u8>), StatusCode>(StatusCode::Corruption)));
}

proof fn lemma_checksum_ignored(bs: int, rec: Seq<u8>, i: int, b: u8)
    requires
        7 < bs <= MAX_BLOCK_SIZE,
        0 <= i < 4,
    ensures
        read_spec(write_spec(0, bs, rec, true).0.update(i, b), 0, 0, bs, false, Seq::empty())
            == read_spec(write_spec(0, bs, rec, true).0, 0, 0, bs, false, Seq::empty()),
{
    let w = write_spec(0, bs, rec, true).0;
    let bad = w.update(i, b);
    lemma_first_step(bs, rec);
    lemma_read_step(w, 0, 0, bs, false, rec, true);
    assert(bad.subrange(4, 6) =~= w.subrange(4, 6));
    let n = le_u16(w.subrange(4, 6)) as int;
    assert(bad.subrange(7, 7 + n) =~= w.subrange(7, 7 + n));
    assert(bad[6] == w[6]);
    assert(read_step(bad, 0, 0, bs, false) == read_step(w, 0, 0, bs, false));
    let rs = read_step(w, 0, 0, bs, false);
    assert(bad.subrange(rs.1, bad.len() as int) =~= w.subrange(rs.1, w.len() as int));
    match rs.0 {
        Some(Ok((t, d))) => {
            lemma_read_spec_local(bad, w, rs.1, rs.2, bs, false, Seq::<u8>::empty() + d);
        },
        _ => {},
    }
}

/// Changing a byte of the checksum of the first frame of a record makes
/// reading that record report `Corruption` when checksums are verified; when
/// they are not, the record still reads back unchanged.
pub proof fn lemma_checksum_corruption(bs: int, rec: Seq<u8>, i: int, b: u8)
    requires
        7 < bs <= MAX_BLOCK_SIZE,
        0 <= i < 4,
        b != write_spec(0, bs, rec, true).0[i],
    ensures
        ({
            let w = write_spec(0, bs, rec, true).0;
            let bad = w.update(i, b);
            &&& read_spec(bad, 0, 0, bs, true, Seq::empty()).0 == Err::<Seq<u8>, StatusCode>(
                StatusCode::Corruption,
            )
            &&& read_spec(bad, 0, 0, bs, false, Seq::empty()).0 == Ok::<Seq<u8>, StatusCode>(rec)
        }),
{
    let w = write_spec(0, bs, rec, true).0;
    lemma_checksum_corruption_detected(bs, rec, i, b);
    lemma_checksum_ignored(bs, rec, i, b);
    assert(w.subrange(0, w.len() as int) =~= w);
    lemma_read_record(w, 0, 0, bs, false, rec, true, Seq::empty());
    assert(Seq::<u8>::empty() + rec =~= rec);
}

/// With checksums not verified, changing a data byte of the first frame of
/// a record reads back as the record with that byte changed, and no error.
#[verifier::rlimit(60)]
pub proof fn lemma_data_change_unchecked(bs: int, rec: Seq<u8>, j: int, b: u8)
    requires
        7 < bs <= MAX_BLOCK_SIZE,
        0 <= j < step_spec(0, bs, rec, true).2,
    ensures
        read_spec(write_spec(0, bs, rec, true).0.update(7 + j, b), 0, 0, bs, false, Seq::empty()).0
            == Ok::<Seq<u8>, StatusCode>(rec.update(j, b)),
{
    let w = write_spec(0, bs, rec, true).0;
    let bad = w.update(7 + j, b);
    let st = step_spec(0, bs, rec, true);
    let n = st.2;
    lemma_first_step(bs, rec);
    lemma_write_spec_bounds(0, bs, rec, true);
    lemma_read_step(w, 0, 0, bs, false, rec, true);
    assert(bad.subrange(4, 6) =~= w.subrange(4, 6));
    assert(bad[6] == w[6]);
    let d = rec.subrange(0, n);
    let d2 = d.update(j, b);
    assert(bad.subrange(7, 7 + n) =~= w.subrange(7, 7 + n).update(j, b));
    assert(w.subrange(7, 7 + n) == d);
    let rs = read_step(bad, 0, 0, bs, false);
    assert(rs == (
        Some(Ok::<(u8, Seq<u8>), StatusCode>((w[6], d2))),
        st.0.len() as int,
        st.1,
    ));
    if n == rec.len() {
        assert(rec.subrange(0, n) =~= rec);
        assert(Seq::<u8>::empty() + d2 =~= rec.update(j, b));
    } else {
        let rest = rec.subrange(n, rec.len() as int);
        let nw = write_spec(st.1, bs, rest, false);
        let p = st.0.len() as int;
        assert(w == st.0 + nw.0);
        assert(bad.subrange(p, bad.len() as int) =~= w.subrange(p, w.len() as int));
        lemma_read_spec_local(bad, w, p, st.1, bs, false, Seq::<u8>::empty() + d2);
        assert(w.subrange(p, p + nw.0.len()) =~= nw.0);
        lemma_read_record(w, p, st.1, bs, false, rest, false, Seq::<u8>::empty() + d2);
        assert(Seq::<u8>::empty() + d2 + rest =~= rec.update(j, b));
    }
}



/// With checksums not verified, reading never reports an error, whatever
/// the bytes of the stream are: damage to a checksum, length, type or data
/// field is passed over.
pub proof fn lemma_unchecked_read_never_fails(
    src: Seq<u8>,
    pos: int,
    blk: int,
    bs: int,
    acc: Seq<u8>,
)
    requires
        0 <= pos <= src.len(),
        0 <= blk <= bs,
        7 < bs,
    ensures
        read_spec(src, pos, blk, bs, false, acc).0 is Ok,
    decreases src.len() - pos,
{
    let st = read_step(src, pos, blk, bs, false);
    match st.0 {
        Some(Ok((t, d))) => {
            if !(t == 1 || t == 4) {
                lemma_unchecked_read_never_fails(src, st.1, st.2, bs, acc + d);
            }
        },
        _ => {},
    }
}

} // verus!
