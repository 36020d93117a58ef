use vstd::prelude::*;
use integer_encoding::FixedInt;
use crate::key::append_bytes;

verus! {

/// The error taxonomy shared by the codec, the memtable and the log.
#[derive(Debug, Clone, Copy, PartialEq, Eq, Structural)]
pub enum StatusCode {
    /// A size or range violation, such as a sequence number that does not fit in 56 bits.
    InvalidInput,
    /// The memtable's arena has no room left.
    ResourceExhausted,
    /// A frame failed its checksum or is malformed.
    Corruption,
    /// The underlying stream failed.
    IoFailure,
    /// An entry with the same key and sequence number is already present.
    AlreadyExists,
}

/// The default size of a log block.
pub const BLOCK_SIZE: usize = 32768;

/// A frame header: a 4-byte checksum, a 2-byte length and a 1-byte type.
pub const HEADER_SIZE: usize = 7;

/// The largest block size: a frame's data length must fit in its 2-byte field.
pub const MAX_BLOCK_SIZE: usize = 65542;

/// The constant added by the checksum mask.
pub const MASK_DELTA: u32 = 0xa282ead8;

/// The kind of a frame: a whole record, or the first, an interior or the
/// last fragment of one.
#[derive(Debug, Clone, Copy, PartialEq, Eq, Structural)]
pub enum RecordType {
    Full,
    First,
    Middle,
    Last,
}

/// The byte that stands for a frame type on disk.
pub open spec fn type_byte_of(t: RecordType) -> u8 {
    match t {
        RecordType::Full => 1,
        RecordType::First => 2,
        RecordType::Middle => 3,
        RecordType::Last => 4,
    }
}

impl RecordType {
    /// The byte that stands for this type on disk.
    pub fn to_byte(&self) -> (r: u8)
        ensures
            r == type_byte_of(*self),
    {
        match self {
            RecordType::Full => 1,
            RecordType::First => 2,
            RecordType::Middle => 3,
            RecordType::Last => 4,
        }
    }
}

/// The type of a fragment, from whether it is the first and whether it is
/// the last of its record.
pub open spec fn frame_type(first: bool, last: bool) -> RecordType {
    if first && last {
        RecordType::Full
    } else if first {
        RecordType::First
    } else if last {
        RecordType::Last
    } else {
        RecordType::Middle
    }
}

/// The CRC-32C (Castagnoli) checksum of a byte string.
pub uninterp spec fn crc32c(data: Seq<u8>) -> u32;

/// Rotates right by 15 bits and adds `MASK_DELTA`, wrapping.
pub open spec fn mask_spec(c: u32) -> u32 {
    (((c >> 15u32) | (c << 17u32)) + MASK_DELTA) as u32
}

/// Subtracts `MASK_DELTA`, wrapping, and rotates left by 15 bits.
pub open spec fn unmask_spec(m: u32) -> u32 {
    let rot = (m - MASK_DELTA) as u32;
    (rot >> 17u32) | (rot << 15u32)
}

/// The four little-endian bytes of `v`.
pub open spec fn le_bytes32(v: u32) -> Seq<u8> {
    seq![
        (v & 0xff) as u8,
        ((v >> 8u32) & 0xff) as u8,
        ((v >> 16u32) & 0xff) as u8,
        ((v >> 24u32) & 0xff) as u8,
    ]
}

/// The two little-endian bytes of `v`.
pub open spec fn le_bytes16(v: u16) -> Seq<u8> {
    seq![(v & 0xff) as u8, ((v >> 8u16) & 0xff) as u8]
}

/// The value of four little-endian bytes.
pub open spec fn le_u32(b: Seq<u8>) -> u32 {
    (b[0] as u32) | ((b[1] as u32) << 8u32) | ((b[2] as u32) << 16u32) | ((b[3] as u32) << 24u32)
}

/// The value of two little-endian bytes.
pub open spec fn le_u16(b: Seq<u8>) -> u16 {
    (b[0] as u16) | ((b[1] as u16) << 8u16)
}

/// The checksum stored in a frame: the masked CRC-32C of its type byte
/// followed by its data.
pub open spec fn frame_checksum(t: u8, data: Seq<u8>) -> u32 {
    mask_spec(crc32c(seq![t] + data))
}

/// A frame as it stands in the stream: checksum, length, type, data.
pub open spec fn frame_spec(t: u8, data: Seq<u8>) -> Seq<u8> {
    le_bytes32(frame_checksum(t, data)) + le_bytes16(data.len() as u16) + seq![t] + data
}

/// `n` zero bytes.
pub open spec fn zeros(n: int) -> Seq<u8> {
    Seq::new(n as nat, |i: int| 0u8)
}

/// One step of writing `rec` when the current block is filled up to `off`
/// (out of `bs`): the bytes it appends, the block offset after it, and how
/// much of `rec` it took. `first` tells whether no fragment of the record has
/// been written yet.
///
/// When fewer than a header's bytes are left in the block they are zeroed
/// and writing moves on to the next block; the fragment then takes as much
/// of the record as the block has room for.
pub open spec fn step_spec(off: int, bs: int, rec: Seq<u8>, first: bool) -> (Seq<u8>, int, int) {
    let pad = if bs - off < 7 { bs - off } else { 0 };
    let off1 = if bs - off < 7 { 0 } else { off };
    let avail = bs - off1 - 7;
    let n = if rec.len() < avail { rec.len() as int } else { avail };
    let t = type_byte_of(frame_type(first, n == rec.len()));
    (zeros(pad) + frame_spec(t, rec.subrange(0, n)), off1 + 7 + n, n)
}

/// The bytes that writing `rec` appends when the current block is filled up
/// to `off` (out of `bs`), and the block offset after it: steps until the
/// whole record is written.
pub open spec fn write_spec(off: int, bs: int, rec: Seq<u8>, first: bool) -> (Seq<u8>, int)
    decreases rec.len(), bs - off,
{
    if bs <= 7 || off < 0 || off > bs {
        (Seq::empty(), off)
    } else {
        let st = step_spec(off, bs, rec, first);
        if st.2 == rec.len() {
            (st.0, st.1)
        } else {
            let next = write_spec(st.1, bs, rec.subrange(st.2, rec.len() as int), false);
            (st.0 + next.0, next.1)
        }
    }
}

/// The block offset after moving `adv` bytes on from offset `blk`: within
/// the block when the move stays in it, else the offset in the block where
/// the move lands.
pub open spec fn advance(blk: int, adv: int, bs: int) -> int {
    if adv <= bs - blk {
        blk + adv
    } else {
        (adv - (bs - blk)) % bs
    }
}

/// One frame read from `src` at `pos`, with the current block filled up to
/// `blk` (out of `bs`): `None` at the end of the stream, else the frame's
/// type and data or the error it gives; and the position and block offset
/// after it.
///
/// Fewer than a header's bytes left in a block are padding and skipped.
/// With `chk`, a header or data cut short by the end of the stream, a frame
/// that claims to run past its block, or a checksum that does not match the
/// type and data read is corruption; a frame that runs past its block is
/// skipped with the rest of that block. Without `chk` nothing is corruption:
/// a header cut short ends the stream, and a frame's data is read as far as
/// the stream goes.
pub open spec fn read_step(src: Seq<u8>, pos: int, blk: int, bs: int, chk: bool) -> (
    Option<Result<(u8, Seq<u8>), StatusCode>>,
    int,
    int,
) {
    let skip = bs - blk < 7;
    let pos1 = if skip {
        if pos + (bs - blk) < src.len() {
            pos + (bs - blk)
        } else {
            src.len() as int
        }
    } else {
        pos
    };
    let blk1 = if skip { 0 } else { blk };
    if pos1 == src.len() {
        (None, pos1, blk1)
    } else if src.len() - pos1 < 7 {
        if chk {
            (Some(Err(StatusCode::Corruption)), src.len() as int, blk1)
        } else {
            (None, src.len() as int, blk1)
        }
    } else {
        let stored = le_u32(src.subrange(pos1, pos1 + 4));
        let n = le_u16(src.subrange(pos1 + 4, pos1 + 6)) as int;
        let t = src[pos1 + 6];
        if chk && n > bs - blk1 - 7 {
            let end = if pos1 + (bs - blk1) < src.len() {
                pos1 + (bs - blk1)
            } else {
                src.len() as int
            };
            (Some(Err(StatusCode::Corruption)), end, 0)
        } else if chk && src.len() - (pos1 + 7) < n {
            (Some(Err(StatusCode::Corruption)), src.len() as int, blk1)
        } else {
            let end = if n <= src.len() - (pos1 + 7) {
                pos1 + 7 + n
            } else {
                src.len() as int
            };
            let data = src.subrange(pos1 + 7, end);
            let blk2 = advance(blk1, end - pos1, bs);
            if chk && unmask_spec(stored) != crc32c(seq![t] + data) {
                (Some(Err(StatusCode::Corruption)), end, blk2)
            } else {
                (Some(Ok((t, data))), end, blk2)
            }
        }
    }
}

/// Reading one record from `src` at `pos`, block offset `blk`, after the
/// fragments `acc`: the record (empty at the end of the stream) or an
/// error, and the position and block offset after it. A `Full` or `Last`
/// frame ends the record; other frames add to it.
pub open spec fn read_spec(src: Seq<u8>, pos: int, blk: int, bs: int, chk: bool, acc: Seq<u8>) -> (
    Result<Seq<u8>, StatusCode>,
    int,
    int,
)
    decreases src.len() - pos,
{
    if !(0 <= pos <= src.len() && 0 <= blk <= bs && 7 < bs) {
        (Err(StatusCode::Corruption), pos, blk)
    } else {
        let st = read_step(src, pos, blk, bs, chk);
        match st.0 {
            None => (Ok(Seq::empty()), st.1, st.2),
            Some(Err(e)) => (Err(e), st.1, st.2),
            Some(Ok((t, d))) => if t == 1 || t == 4 {
                (Ok(acc + d), st.1, st.2)
            } else {
                read_spec(src, st.1, st.2, bs, chk, acc + d)
            },
        }
    }
}

/// Relies on crc's `Crc::<u32>::checksum` over the `CRC_32_ISCSI`
/// parameters: the CRC-32C of the bytes, which depends on them alone.
#[verifier::external_body]
pub fn crc32(data: &[u8]) -> (r: u32)
    ensures
        r == crc32c(data@),
{
    crc::Crc::<u32, crc::Table<1>>::new(&crc::CRC_32_ISCSI).checksum(data)
}

/// Relies on integer-encoding's `FixedInt::encode_fixed_vec` for `u32`: the
/// four bytes of `v`, least significant first.
#[verifier::external_body]
fn u32_fixed_vec(v: u32) -> (r: Vec<u8>)
    ensures
        r@ == le_bytes32(v),
{
    v.encode_fixed_vec()
}

/// Relies on integer-encoding's `FixedInt::encode_fixed_vec` for `u16`: the
/// two bytes of `v`, least significant first.
#[verifier::external_body]
fn u16_fixed_vec(v: u16) -> (r: Vec<u8>)
    ensures
        r@ == le_bytes16(v),
{
    v.encode_fixed_vec()
}

/// Relies on integer-encoding's `FixedInt::decode_fixed` for `u32`: the
/// little-endian value of exactly four bytes, else `None`.
#[verifier::external_body]
fn u32_decode_fixed(b: &[u8]) -> (r: Option<u32>)
    ensures
        b@.len() == 4 ==> r == Some(le_u32(b@)),
        b@.len() != 4 ==> r is None,
{
    u32::decode_fixed(b)
}

/// Relies on integer-encoding's `FixedInt::decode_fixed` for `u16`: the
/// little-endian value of exactly two bytes, else `None`.
#[verifier::external_body]
fn u16_decode_fixed(b: &[u8]) -> (r: Option<u16>)
    ensures
        b@.len() == 2 ==> r == Some(le_u16(b@)),
        b@.len() != 2 ==> r is None,
{
    u16::decode_fixed(b)
}

proof fn lemma_wrapping_u32(x: u32, y: u32)
    ensures
        x.wrapping_add(y) == (x + y) as u32,
        x.wrapping_sub(y) == (x - y) as u32,
{
    assert(x + y > 0xffffffffu32 ==> ((x + y - 0x100000000int) as u32) == ((x + y) as u32))
        by (bit_vector);
    assert(x - y < 0 ==> ((x - y + 0x100000000int) as u32) == ((x - y) as u32)) by (bit_vector);
    assert(x + y <= 0xffffffffu32 ==> ((x + y) as u32) == x + y) by (bit_vector);
    assert(x - y >= 0 ==> ((x - y) as u32) == x - y) by (bit_vector);
}

/// Masks a CRC so that a stored checksum is never the CRC of stored data
/// itself.
pub fn mask_crc(c: u32) -> (r: u32)
    ensures
        r == mask_spec(c),
{
    let rot: u32 = (c >> 15u32) | (c << 17u32);
    proof {
        lemma_wrapping_u32(rot, MASK_DELTA);
    }
    rot.wrapping_add(MASK_DELTA)
}

/// Undoes `mask_crc`.
pub fn unmask_crc(mc: u32) -> (r: u32)
    ensures
        r == unmask_spec(mc),
{
    proof {
        lemma_wrapping_u32(mc, MASK_DELTA);
    }
    let rot: u32 = mc.wrapping_sub(MASK_DELTA);
    (rot >> 17u32) | (rot << 15u32)
}

/// Unmasking a masked checksum gives the checksum back.
pub proof fn lemma_mask_round_trip(c: u32)
    ensures
        unmask_spec(mask_spec(c)) == c,
{
    assert(((((((c >> 15u32) | (c << 17u32)) + 0xa282ead8u32) as u32 - 0xa282ead8u32) as u32)
        >> 17u32) | (((((((c >> 15u32) | (c << 17u32)) + 0xa282ead8u32) as u32 - 0xa282ead8u32)
        as u32) << 15u32)) == c) by (bit_vector);
}

/// Masking is one-to-one: two stored checksums that differ unmask to
/// different values.
pub proof fn lemma_unmask_injective(a: u32, b: u32)
    ensures
        a != b ==> unmask_spec(a) != unmask_spec(b),
{
    assert(a != b ==> ((((a - 0xa282ead8u32) as u32) >> 17u32) | (((a - 0xa282ead8u32) as u32)
        << 15u32)) != ((((b - 0xa282ead8u32) as u32) >> 17u32) | (((b - 0xa282ead8u32) as u32)
        << 15u32))) by (bit_vector);
}

/// Whether a stored (masked) checksum matches a freshly computed CRC.
pub fn checksum_matches(stored: u32, crc: u32) -> (r: bool)
    ensures
        r == (unmask_spec(stored) == crc),
{
    unmask_crc(stored) == crc
}

/// The bytes of one frame, given the CRC-32C of its type byte followed by
/// its data.
pub fn encode_frame(t: u8, data: &[u8], crc: u32) -> (r: Vec<u8>)
    requires
        data@.len() <= 0xffff,
    ensures
        r@ == le_bytes32(mask_spec(crc)) + le_bytes16(data@.len() as u16) + seq![t] + data@,
{
    let mut out: Vec<u8> = u32_fixed_vec(mask_crc(crc));
    let len_bytes: Vec<u8> = u16_fixed_vec(data.len() as u16);
    append_bytes(&mut out, len_bytes.as_slice());
    out.push(t);
    append_bytes(&mut out, data);
    out
}

/// Writing a record adds at most fourteen bytes per record byte plus a
/// constant, and leaves the block offset within the block.
pub proof fn lemma_write_spec_bounds(off: int, bs: int, rec: Seq<u8>, first: bool)
    requires
        7 < bs,
        0 <= off <= bs,
    ensures
        write_spec(off, bs, rec, first).0.len() <= 14 * rec.len() + 13 + (if bs - off == 7 {
            7int
        } else {
            0int
        }),
        0 <= write_spec(off, bs, rec, first).1 <= bs,
    decreases rec.len(), bs - off,
{
    let st = step_spec(off, bs, rec, first);
    if st.2 != rec.len() {
        lemma_write_spec_bounds(st.1, bs, rec.subrange(st.2, rec.len() as int), false);
    }
}

/// Writes records into a byte stream, framed in fixed-size blocks.
pub struct LogWriter {
    dst: Vec<u8>,
    current_block_offset: usize,
    block_size: usize,
}

impl LogWriter {
    /// The bytes written so far.
    pub closed spec fn stream(&self) -> Seq<u8> {
        self.dst@
    }

    /// How far the current block is filled.
    pub closed spec fn offset(&self) -> int {
        self.current_block_offset as int
    }

    /// The block size.
    pub closed spec fn block_len(&self) -> int {
        self.block_size as int
    }

    /// The block size leaves room for a header and fits a frame's length
    /// field; the offset lies within the block.
    pub closed spec fn wf(&self) -> bool {
        &&& HEADER_SIZE < self.block_size <= MAX_BLOCK_SIZE
        &&& self.current_block_offset <= self.block_size
    }

    /// What a well-formed writer's block size and offset satisfy.
    pub proof fn lemma_wf_bounds(&self)
        requires
            self.wf(),
        ensures
            HEADER_SIZE < self.block_len() <= MAX_BLOCK_SIZE,
            0 <= self.offset() <= self.block_len(),
    {
    }

    /// A writer that appends to `writer` with the default block size,
    /// starting at the beginning of a block.
    pub fn new(writer: Vec<u8>) -> (r: LogWriter)
        ensures
            r.wf(),
            r.stream() == writer@,
            r.offset() == 0,
            r.block_len() == BLOCK_SIZE,
    {
        LogWriter { dst: writer, current_block_offset: 0, block_size: BLOCK_SIZE }
    }

    /// A writer that continues a log of the default block size whose length
    /// so far is `off`.
    pub fn new_with_off(writer: Vec<u8>, off: usize) -> (r: LogWriter)
        ensures
            r.wf(),
            r.stream() == writer@,
            r.offset() == off % BLOCK_SIZE,
            r.block_len() == BLOCK_SIZE,
    {
        let mut w = LogWriter::new(writer);
        w.current_block_offset = off % BLOCK_SIZE;
        w
    }

    /// A writer with a block size of its own, starting at the beginning of a
    /// block. A block size that leaves no room for data after a header, or
    /// whose frames could not record their length, is rejected.
    pub fn with_block_size(writer: Vec<u8>, block_size: usize) -> (r: Result<LogWriter, StatusCode>)
        ensures
            match r {
                Ok(w) => HEADER_SIZE < block_size <= MAX_BLOCK_SIZE && w.wf() && w.stream()
                    == writer@ && w.offset() == 0 && w.block_len() == block_size,
                Err(e) => e == StatusCode::InvalidInput && !(HEADER_SIZE < block_size
                    <= MAX_BLOCK_SIZE),
            },
    {
        if block_size <= HEADER_SIZE || block_size > MAX_BLOCK_SIZE {
            return Err(StatusCode::InvalidInput);
        }
        Ok(LogWriter { dst: writer, current_block_offset: 0, block_size })
    }

    /// How far the current block is filled.
    pub fn current_block_offset(&self) -> (r: usize)
        ensures
            r == self.offset(),
    {
        self.current_block_offset
    }

    /// The block size.
    pub fn block_size(&self) -> (r: usize)
        ensures
            r == self.block_len(),
    {
        self.block_size
    }

    /// The bytes written so far.
    pub fn contents(&self) -> (r: &Vec<u8>)
        ensures
            r@ == self.stream(),
    {
        &self.dst
    }

    /// The underlying stream.
    pub fn into_inner(self) -> (r: Vec<u8>)
        ensures
            r@ == self.stream(),
    {
        self.dst
    }

    /// Takes the bytes written so far out of the writer, keeping its place
    /// in the block.
    pub fn take_output(&mut self) -> (r: Vec<u8>)
        ensures
            r@ == old(self).stream(),
            final(self).stream() == Seq::<u8>::empty(),
            final(self).offset() == old(self).offset(),
            final(self).block_len() == old(self).block_len(),
            final(self).wf() == old(self).wf(),
    {
        let mut out: Vec<u8> = Vec::new();
        std::mem::swap(&mut out, &mut self.dst);
        out
    }

    /// Appends one frame of type `t` holding `data`.
    fn emit_record(&mut self, t: RecordType, data: &[u8]) -> (r: usize)
        requires
            old(self).wf(),
            old(self).current_block_offset + HEADER_SIZE + data@.len() <= old(self).block_size,
            old(self).dst@.len() + HEADER_SIZE + data@.len() <= usize::MAX,
        ensures
            final(self).wf(),
            final(self).dst@ == old(self).dst@ + frame_spec(type_byte_of(t), data@),
            final(self).current_block_offset == old(self).current_block_offset + r,
            final(self).block_size == old(self).block_size,
            r == HEADER_SIZE + data@.len(),
    {
        let tb: u8 = t.to_byte();
        let mut covered: Vec<u8> = Vec::new();
        covered.push(tb);
        append_bytes(&mut covered, data);
        let crc: u32 = crc32(covered.as_slice());
        assert(covered@ =~= seq![tb] + data@);
        let frame: Vec<u8> = encode_frame(tb, data, crc);
        append_bytes(&mut self.dst, frame.as_slice());
        let s: usize = HEADER_SIZE + data.len();
        self.current_block_offset = self.current_block_offset + s;
        assert(self.dst@ =~= old(self).dst@ + frame_spec(type_byte_of(t), data@));
        s
    }

    /// Appends `record` to the log, split into frames that never cross a
    /// block boundary, and returns the number of bytes written (padding and
    /// headers included). An empty record is written as one empty frame.
    pub fn add_record(&mut self, record: &[u8]) -> (r: Result<usize, StatusCode>)
        requires
            old(self).wf(),
            old(self).stream().len() + 14 * record@.len() + 20 <= usize::MAX,
        ensures
            final(self).wf(),
            final(self).block_len() == old(self).block_len(),
            ({
                let w = write_spec(old(self).offset(), old(self).block_len(), record@, true);
                &&& final(self).stream() == old(self).stream() + w.0
                &&& final(self).offset() == w.1
                &&& r == Ok::<usize, StatusCode>(w.0.len() as usize)
            }),
    {
        let ghost bs = self.block_size as int;
        let ghost w0 = write_spec(self.current_block_offset as int, bs, record@, true);
        proof {
            lemma_write_spec_bounds(self.current_block_offset as int, bs, record@, true);
        }
        let base: usize = self.dst.len();
        let mut first: bool = true;
        let mut start: usize = 0;
        assert(record@.subrange(0, record@.len() as int) =~= record@);
        loop
            invariant_except_break
                self.wf(),
                self.block_size == bs,
                start <= record@.len(),
                base == old(self).dst@.len(),
                old(self).dst@ + w0.0 == self.dst@ + write_spec(
                    self.current_block_offset as int,
                    bs,
                    record@.subrange(start as int, record@.len() as int),
                    first,
                ).0,
                w0.1 == write_spec(
                    self.current_block_offset as int,
                    bs,
                    record@.subrange(start as int, record@.len() as int),
                    first,
                ).1,
                old(self).dst@.len() + w0.0.len() <= usize::MAX,
            ensures
                self.wf(),
                self.block_size == bs,
                self.dst@ == old(self).dst@ + w0.0,
                self.current_block_offset == w0.1,
            decreases record@.len() - start, bs - self.current_block_offset,
        {
            let rest: &[u8] = vstd::slice::slice_subrange(record, start, record.len());
            let ghost off0 = self.current_block_offset as int;
            let ghost st = step_spec(off0, bs, rest@, first);
            let ghost wr = write_spec(off0, bs, rest@, first);
            assert(wr.0.len() >= st.0.len());
            assert((old(self).dst@ + w0.0).len() == (self.dst@ + wr.0).len());
            let n: usize = self.write_step(rest, first);
            let ghost next_rest = rest@.subrange(n as int, rest@.len() as int);
            assert(next_rest =~= record@.subrange(start + n, record@.len() as int));
            start = start + n;
            first = false;
            if n == rest.len() {
                assert(old(self).dst@ + w0.0 =~= self.dst@);
                break;
            }
            assert(wr.0 == st.0 + write_spec(st.1, bs, next_rest, false).0);
            assert(old(self).dst@ + w0.0 =~= self.dst@ + write_spec(
                self.current_block_offset as int,
                bs,
                record@.subrange(start as int, record@.len() as int),
                first,
            ).0);
        }
        Ok(self.dst.len() - base)
    }

    /// Writes one step of `rest` (see `step_spec`) and returns how much of
    /// it was taken.
    fn write_step(&mut self, rest: &[u8], first: bool) -> (n: usize)
        requires
            old(self).wf(),
            old(self).dst@.len() + step_spec(
                old(self).current_block_offset as int,
                old(self).block_size as int,
                rest@,
                first,
            ).0.len() <= usize::MAX,
        ensures
            ({
                let st = step_spec(
                    old(self).current_block_offset as int,
                    old(self).block_size as int,
                    rest@,
                    first,
                );
                &&& final(self).dst@ == old(self).dst@ + st.0
                &&& final(self).current_block_offset == st.1
                &&& n == st.2
            }),
            final(self).wf(),
            final(self).block_size == old(self).block_size,
            n <= rest@.len(),
            n == rest@.len() || final(self).current_block_offset == final(self).block_size,
    {
        let ghost dst0 = self.dst@;
        let ghost off0 = self.current_block_offset as int;
        let ghost bs = self.block_size as int;
        let space_left: usize = self.block_size - self.current_block_offset;
        if space_left < HEADER_SIZE {
            let mut i: usize = 0;
            while i < space_left
                invariant
                    i <= space_left,
                    space_left < HEADER_SIZE,
                    self.dst@ == dst0 + zeros(i as int),
                    self.wf(),
                    self.block_size == bs,
                    self.current_block_offset == off0,
                decreases space_left - i,
            {
                self.dst.push(0u8);
                i = i + 1;
                assert(self.dst@ =~= dst0 + zeros(i as int));
            }
            self.current_block_offset = 0;
        }
        let avail: usize = self.block_size - self.current_block_offset - HEADER_SIZE;
        let n: usize = if rest.len() < avail {
            rest.len()
        } else {
            avail
        };
        let last: bool = n == rest.len();
        let t: RecordType = if first && last {
            RecordType::Full
        } else if first {
            RecordType::First
        } else if last {
            RecordType::Last
        } else {
            RecordType::Middle
        };
        let frag: &[u8] = vstd::slice::slice_subrange(rest, 0, n);
        self.emit_record(t, frag);
        assert(self.dst@ =~= dst0 + step_spec(off0, bs, rest@, first).0);
        n
    }

    /// Flushes the underlying stream; an in-memory stream has nothing to
    /// flush.
    pub fn flush(&mut self) -> (r: Result<(), StatusCode>)
        ensures
            r is Ok,
            *final(self) == *old(self),
    {
        Ok(())
    }
}

/// Reads records back from a byte stream written by a `LogWriter` with the
/// same block size.
pub struct LogReader {
    src: Vec<u8>,
    pos: usize,
    blk_off: usize,
    blocksize: usize,
    checksums: bool,
}

impl LogReader {
    /// The stream read from.
    pub closed spec fn source(&self) -> Seq<u8> {
        self.src@
    }

    /// How much of the stream has been read.
    pub closed spec fn position(&self) -> int {
        self.pos as int
    }

    /// How far into the current block reading has come.
    pub closed spec fn block_offset(&self) -> int {
        self.blk_off as int
    }

    /// The block size.
    pub closed spec fn block_len(&self) -> int {
        self.blocksize as int
    }

    /// Whether checksums are verified.
    pub closed spec fn checks(&self) -> bool {
        self.checksums
    }

    /// The position lies within the stream and the block offset within the
    /// block; the block size leaves room for a header.
    pub closed spec fn wf(&self) -> bool {
        &&& HEADER_SIZE < self.blocksize <= MAX_BLOCK_SIZE
        &&& self.blk_off <= self.blocksize
        &&& self.pos <= self.src@.len()
    }

    /// What a well-formed reader's block size, block offset and position
    /// satisfy.
    pub proof fn lemma_wf_bounds(&self)
        requires
            self.wf(),
        ensures
            HEADER_SIZE < self.block_len() <= MAX_BLOCK_SIZE,
            0 <= self.block_offset() <= self.block_len(),
            0 <= self.position() <= self.source().len(),
    {
    }

    /// A reader over `src` with the default block size; `chksum` tells
    /// whether checksums are verified.
    pub fn new(src: &[u8], chksum: bool) -> (r: LogReader)
        ensures
            r.wf(),
            r.source() == src@,
            r.position() == 0,
            r.block_offset() == 0,
            r.block_len() == BLOCK_SIZE,
            r.checks() == chksum,
    {
        LogReader {
            src: vstd::slice::slice_to_vec(src),
            pos: 0,
            blk_off: 0,
            blocksize: BLOCK_SIZE,
            checksums: chksum,
        }
    }

    /// A reader with a block size of its own, which must match the
    /// writer's. A block size that a writer cannot have is rejected.
    pub fn with_block_size(src: &[u8], chksum: bool, block_size: usize) -> (r: Result<
        LogReader,
        StatusCode,
    >)
        ensures
            match r {
                Ok(rd) => HEADER_SIZE < block_size <= MAX_BLOCK_SIZE && rd.wf() && rd.source()
                    == src@ && rd.position() == 0 && rd.block_offset() == 0 && rd.block_len()
                    == block_size && rd.checks() == chksum,
                Err(e) => e == StatusCode::InvalidInput && !(HEADER_SIZE < block_size
                    <= MAX_BLOCK_SIZE),
            },
    {
        if block_size <= HEADER_SIZE || block_size > MAX_BLOCK_SIZE {
            return Err(StatusCode::InvalidInput);
        }
        Ok(
            LogReader {
                src: vstd::slice::slice_to_vec(src),
                pos: 0,
                blk_off: 0,
                blocksize: block_size,
                checksums: chksum,
            },
        )
    }

    /// Whether `expected`, a stored checksum, matches the type byte and the
    /// data.
    fn check_integrity(&self, typ: u8, data: &[u8], expected: u32) -> (r: bool)
        ensures
            r == (unmask_spec(expected) == crc32c(seq![typ] + data@)),
    {
        let mut covered: Vec<u8> = Vec::new();
        covered.push(typ);
        append_bytes(&mut covered, data);
        assert(covered@ =~= seq![typ] + data@);
        checksum_matches(expected, crc32(covered.as_slice()))
    }

    /// Reads one frame (see `read_step`), appending its data to `dst`.
    fn next_frame(&mut self, dst: &mut Vec<u8>) -> (r: Option<Result<u8, StatusCode>>)
        requires
            old(self).wf(),
        ensures
            final(self).wf(),
            final(self).src == old(self).src,
            final(self).blocksize == old(self).blocksize,
            final(self).checksums == old(self).checksums,
            ({
                let st = read_step(
                    old(self).src@,
                    old(self).pos as int,
                    old(self).blk_off as int,
                    old(self).blocksize as int,
                    old(self).checksums,
                );
                &&& final(self).pos == st.1
                &&& final(self).blk_off == st.2
                &&& match st.0 {
                    None => r is None && final(dst)@ == old(dst)@,
                    Some(Err(e)) => r == Some(Err::<u8, StatusCode>(e)),
                    Some(Ok((t, d))) => r == Some(Ok::<u8, StatusCode>(t)) && final(dst)@ == old(
                        dst,
                    )@ + d,
                }
            }),
    {
        let len: usize = self.src.len();
        if self.blocksize - self.blk_off < HEADER_SIZE {
            let pad: usize = self.blocksize - self.blk_off;
            if pad < len - self.pos {
                self.pos = self.pos + pad;
            } else {
                self.pos = len;
            }
            self.blk_off = 0;
        }
        if self.pos == len {
            return None;
        }
        if len - self.pos < HEADER_SIZE {
            self.pos = len;
            if self.checksums {
                return Some(Err(StatusCode::Corruption));
            }
            return None;
        }
        let p: usize = self.pos;
        let bytes: &[u8] = self.src.as_slice();
        let stored: u32 = match u32_decode_fixed(vstd::slice::slice_subrange(bytes, p, p + 4)) {
            Some(v) => v,
            None => {
                return Some(Err(StatusCode::Corruption));
            },
        };
        let n: usize = match u16_decode_fixed(vstd::slice::slice_subrange(bytes, p + 4, p + 6)) {
            Some(v) => v as usize,
            None => {
                return Some(Err(StatusCode::Corruption));
            },
        };
        let typ: u8 = bytes[p + 6];
        if self.checksums && n > self.blocksize - self.blk_off - HEADER_SIZE {
            let room: usize = self.blocksize - self.blk_off;
            if room < len - p {
                self.pos = p + room;
            } else {
                self.pos = len;
            }
            self.blk_off = 0;
            return Some(Err(StatusCode::Corruption));
        }
        if self.checksums && len - (p + HEADER_SIZE) < n {
            self.pos = len;
            return Some(Err(StatusCode::Corruption));
        }
        let start: usize = p + HEADER_SIZE;
        let end: usize = if n <= len - start {
            start + n
        } else {
            len
        };
        let data: &[u8] = vstd::slice::slice_subrange(self.src.as_slice(), start, end);
        let adv: usize = end - p;
        let room: usize = self.blocksize - self.blk_off;
        self.pos = end;
        self.blk_off = if adv <= room {
            self.blk_off + adv
        } else {
            (adv - room) % self.blocksize
        };
        if self.checksums && !self.check_integrity(typ, data, stored) {
            return Some(Err(StatusCode::Corruption));
        }
        append_bytes(dst, data);
        Some(Ok(typ))
    }

    /// Reads the next record into `dst` and returns its length; `Ok(0)`, with
    /// `dst` empty, at the end of the stream. When checksums are verified, a
    /// frame that fails its checksum or is malformed gives `Corruption`, and
    /// reading then goes on after it; when they are not, damage is passed
    /// over and no error is reported.
    pub fn read(&mut self, dst: &mut Vec<u8>) -> (r: Result<usize, StatusCode>)
        requires
            old(self).wf(),
        ensures
            final(self).wf(),
            final(self).source() == old(self).source(),
            final(self).block_len() == old(self).block_len(),
            final(self).checks() == old(self).checks(),
            ({
                let rs = read_spec(
                    old(self).source(),
                    old(self).position(),
                    old(self).block_offset(),
                    old(self).block_len(),
                    old(self).checks(),
                    Seq::empty(),
                );
                &&& final(self).position() == rs.1
                &&& final(self).block_offset() == rs.2
                &&& match r {
                    Ok(n) => rs.0 == Ok::<Seq<u8>, StatusCode>(final(dst)@) && n == final(dst)@.len(),
                    Err(e) => rs.0 == Err::<Seq<u8>, StatusCode>(e),
                }
            }),
    {
        let ghost goal = read_spec(
            old(self).source(),
            old(self).position(),
            old(self).block_offset(),
            old(self).block_len(),
            old(self).checks(),
            Seq::empty(),
        );
        dst.clear();
        loop
            invariant
                self.wf(),
                self.src == old(self).src,
                self.blocksize == old(self).blocksize,
                self.checksums == old(self).checksums,
                goal == read_spec(
                    old(self).source(),
                    old(self).position(),
                    old(self).block_offset(),
                    old(self).block_len(),
                    old(self).checks(),
                    Seq::empty(),
                ),
                goal == read_spec(
                    self.src@,
                    self.pos as int,
                    self.blk_off as int,
                    self.blocksize as int,
                    self.checksums,
                    dst@,
                ),
            decreases self.src@.len() - self.pos,
        {
            match self.next_frame(dst) {
                None => {
                    dst.clear();
                    assert(goal.0 == Ok::<Seq<u8>, StatusCode>(Seq::empty()));
                    assert(dst@ =~= Seq::<u8>::empty());
                    return Ok(0);
                },
                Some(Err(e)) => {
                    return Err(e);
                },
                Some(Ok(typ)) => {
                    if typ == 1 || typ == 4 {
                        assert(goal.0 == Ok::<Seq<u8>, StatusCode>(dst@));
                        return Ok(dst.len());
                    }
                },
            }
        }
    }
}

} // verus!
