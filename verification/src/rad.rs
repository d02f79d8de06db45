//! The binary event-log container for projected alignments: a versioned
//! header carrying the barcode and UMI widths and the transcript length
//! table, followed by chunks of records. All multi-byte numbers are
//! little-endian with fixed widths; byte layouts are stated exactly so an
//! independent reader can be written against them.

use vstd::prelude::*;

verus! {

/// Format version written into every header.
pub const EVENT_LOG_VERSION: u32 = 1;

pub open spec fn u16_le(n: u16) -> Seq<u8> {
    seq![(n % 256) as u8, (n / 256) as u8]
}

pub open spec fn u32_le(n: u32) -> Seq<u8> {
    seq![
        (n % 256) as u8,
        ((n / 256) % 256) as u8,
        ((n / 0x10000) % 256) as u8,
        (n / 0x1000000) as u8,
    ]
}

pub open spec fn u64_le(n: u64) -> Seq<u8> {
    u32_le((n % 0x1_0000_0000) as u32) + u32_le((n / 0x1_0000_0000) as u32)
}

/// Appends `n` in two little-endian bytes.
pub fn push_u16_le(buf: &mut Vec<u8>, n: u16)
    ensures
        final(buf)@ == old(buf)@ + u16_le(n),
{
    buf.push((n % 256) as u8);
    buf.push((n / 256) as u8);
    proof {
        assert(buf@ =~= old(buf)@ + u16_le(n));
    }
}

/// Appends `n` in four little-endian bytes.
pub fn push_u32_le(buf: &mut Vec<u8>, n: u32)
    ensures
        final(buf)@ == old(buf)@ + u32_le(n),
{
    buf.push((n % 256) as u8);
    buf.push(((n / 256) % 256) as u8);
    buf.push(((n / 0x10000) % 256) as u8);
    buf.push((n / 0x1000000) as u8);
    proof {
        assert(buf@ =~= old(buf)@ + u32_le(n));
    }
}

/// Appends `n` in eight little-endian bytes.
pub fn push_u64_le(buf: &mut Vec<u8>, n: u64)
    ensures
        final(buf)@ == old(buf)@ + u64_le(n),
{
    push_u32_le(buf, (n % 0x1_0000_0000) as u32);
    push_u32_le(buf, (n / 0x1_0000_0000) as u32);
    proof {
        assert(buf@ =~= old(buf)@ + u64_le(n));
    }
}

/// The length table: each transcript length as four little-endian bytes.
pub open spec fn length_table_spec(lengths: Seq<i32>) -> Seq<u8>
    decreases lengths.len(),
{
    if lengths.len() == 0 {
        Seq::empty()
    } else {
        length_table_spec(lengths.drop_last()) + u32_le(lengths.last() as u32)
    }
}

/// The header: version, barcode width, UMI width, transcript count, then
/// the length table.
pub open spec fn header_spec(bc_len: u16, umi_len: u16, lengths: Seq<i32>) -> Seq<u8> {
    u32_le(EVENT_LOG_VERSION) + u16_le(bc_len) + u16_le(umi_len) + u64_le(lengths.len() as u64)
        + length_table_spec(lengths)
}

/// One record's projected transcript ids: their count, then each id, all as
/// four little-endian bytes.
pub open spec fn tid_list_spec(tids: Seq<i32>) -> Seq<u8>
    decreases tids.len(),
{
    if tids.len() == 0 {
        Seq::empty()
    } else {
        tid_list_spec(tids.drop_last()) + u32_le(tids.last() as u32)
    }
}

pub open spec fn bulk_record_spec(tids: Seq<i32>) -> Seq<u8> {
    u32_le(tids.len() as u32) + tid_list_spec(tids)
}

/// A single-cell record: the UMI bytes, then the projected ids.
pub open spec fn sc_record_spec(umi: Seq<u8>, tids: Seq<i32>) -> Seq<u8> {
    umi + bulk_record_spec(tids)
}

/// A chunk header: the barcode shared by the chunk's records, then their
/// count.
pub open spec fn chunk_header_spec(barcode: Seq<u8>, nrecs: u32) -> Seq<u8> {
    barcode + u32_le(nrecs)
}

/// Encodes the event-log header.
pub fn encode_header(bc_len: u16, umi_len: u16, lengths: &Vec<i32>) -> (r: Vec<u8>)
    requires
        forall|i: int| 0 <= i < lengths@.len() ==> 0 <= #[trigger] lengths@[i],
    ensures
        r@ == header_spec(bc_len, umi_len, lengths@),
{
    let mut buf: Vec<u8> = Vec::new();
    push_u32_le(&mut buf, EVENT_LOG_VERSION);
    push_u16_le(&mut buf, bc_len);
    push_u16_le(&mut buf, umi_len);
    push_u64_le(&mut buf, lengths.len() as u64);
    let ghost head = buf@;
    let mut i: usize = 0;
    while i < lengths.len()
        invariant
            0 <= i <= lengths@.len(),
            forall|j: int| 0 <= j < lengths@.len() ==> 0 <= #[trigger] lengths@[j],
            buf@ == head + length_table_spec(lengths@.subrange(0, i as int)),
        decreases lengths@.len() - i,
    {
        push_u32_le(&mut buf, lengths[i] as u32);
        proof {
            assert(lengths@.subrange(0, i + 1).drop_last() =~= lengths@.subrange(0, i as int));
            assert(buf@ =~= head + length_table_spec(lengths@.subrange(0, i + 1)));
        }
        i = i + 1;
    }
    proof {
        assert(lengths@.subrange(0, lengths@.len() as int) =~= lengths@);
        assert(buf@ =~= header_spec(bc_len, umi_len, lengths@));
    }
    buf
}

/// Appends one record's transcript-id list.
fn push_tid_list(buf: &mut Vec<u8>, tids: &Vec<i32>)
    requires
        tids@.len() < 0x1_0000_0000,
        forall|i: int| 0 <= i < tids@.len() ==> 0 <= #[trigger] tids@[i],
    ensures
        final(buf)@ == old(buf)@ + bulk_record_spec(tids@),
{
    push_u32_le(buf, tids.len() as u32);
    let ghost head = buf@;
    let mut i: usize = 0;
    while i < tids.len()
        invariant
            0 <= i <= tids@.len(),
            forall|j: int| 0 <= j < tids@.len() ==> 0 <= #[trigger] tids@[j],
            buf@ == head + tid_list_spec(tids@.subrange(0, i as int)),
        decreases tids@.len() - i,
    {
        push_u32_le(buf, tids[i] as u32);
        proof {
            assert(tids@.subrange(0, i + 1).drop_last() =~= tids@.subrange(0, i as int));
            assert(buf@ =~= head + tid_list_spec(tids@.subrange(0, i + 1)));
        }
        i = i + 1;
    }
    proof {
        assert(tids@.subrange(0, tids@.len() as int) =~= tids@);
        assert(buf@ =~= old(buf)@ + bulk_record_spec(tids@));
    }
}

/// Buffers the records of one open chunk and decides when to flush. The
/// caller opens a chunk with its header, appends records, and takes the
/// bytes when `should_flush` says so or the stream ends.
pub struct EventLogSink {
    pub buf: Vec<u8>,
    pub records: usize,
    pub max_records: usize,
    pub max_bytes: usize,
}

impl EventLogSink {
    pub fn new(max_records: usize, max_bytes: usize) -> (s: EventLogSink)
        ensures
            s.buf@ == Seq::<u8>::empty(),
            s.records == 0,
            s.max_records == max_records,
            s.max_bytes == max_bytes,
    {
        EventLogSink { buf: Vec::new(), records: 0, max_records, max_bytes }
    }

    /// Opens a chunk: its barcode and record count are written by the caller
    /// when the count is known, so the header is encoded separately.
    pub fn append_chunk_header(&mut self, barcode: &Vec<u8>, nrecs: u32)
        ensures
            final(self).buf@ == old(self).buf@ + chunk_header_spec(barcode@, nrecs),
            final(self).records == old(self).records,
            final(self).max_records == old(self).max_records,
            final(self).max_bytes == old(self).max_bytes,
    {
        let ghost head = self.buf@;
        crate::bytes::append_bytes(&mut self.buf, barcode.as_slice());
        push_u32_le(&mut self.buf, nrecs);
        proof {
            assert(self.buf@ =~= head + chunk_header_spec(barcode@, nrecs));
        }
    }

    /// Appends one bulk record: the projected transcript ids alone.
    pub fn add_bulk_record(&mut self, tids: &Vec<i32>)
        requires
            tids@.len() < 0x1_0000_0000,
            forall|i: int| 0 <= i < tids@.len() ==> 0 <= #[trigger] tids@[i],
            old(self).records < usize::MAX,
        ensures
            final(self).buf@ == old(self).buf@ + bulk_record_spec(tids@),
            final(self).records == old(self).records + 1,
            final(self).max_records == old(self).max_records,
            final(self).max_bytes == old(self).max_bytes,
    {
        push_tid_list(&mut self.buf, tids);
        self.records = self.records + 1;
    }

    /// Appends one single-cell record: the UMI, then the projected ids.
    pub fn add_sc_record(&mut self, umi: &Vec<u8>, tids: &Vec<i32>)
        requires
            tids@.len() < 0x1_0000_0000,
            forall|i: int| 0 <= i < tids@.len() ==> 0 <= #[trigger] tids@[i],
            old(self).records < usize::MAX,
        ensures
            final(self).buf@ == old(self).buf@ + sc_record_spec(umi@, tids@),
            final(self).records == old(self).records + 1,
            final(self).max_records == old(self).max_records,
            final(self).max_bytes == old(self).max_bytes,
    {
        let ghost head = self.buf@;
        crate::bytes::append_bytes(&mut self.buf, umi.as_slice());
        push_tid_list(&mut self.buf, tids);
        self.records = self.records + 1;
        proof {
            assert(self.buf@ =~= head + sc_record_spec(umi@, tids@));
        }
    }

    /// A chunk is finalized when its record count or byte size crosses the
    /// configured thresholds.
    pub fn should_flush(&self) -> (r: bool)
        ensures
            r == (self.records >= self.max_records || self.buf@.len() >= self.max_bytes),
    {
        self.records >= self.max_records || self.buf.len() >= self.max_bytes
    }

    /// Hands the buffered chunk bytes out and resets the sink.
    pub fn take_chunk(&mut self) -> (r: Vec<u8>)
        ensures
            r@ == old(self).buf@,
            final(self).buf@ == Seq::<u8>::empty(),
            final(self).records == 0,
            final(self).max_records == old(self).max_records,
            final(self).max_bytes == old(self).max_bytes,
    {
        let mut out: Vec<u8> = Vec::new();
        out.append(&mut self.buf);
        self.records = 0;
        proof {
            assert(out@ =~= old(self).buf@);
        }
        out
    }
}

} // verus!
