//! The byte-level encoders shared by the visual-log formats: a seekable
//! in-memory stream writer, per-layer entry buffers and the entry framing.
use vstd::prelude::*;
use vstd::string::StringSliceAdditionalSpecFns;

verus! {

/// Little-endian bytes of a 32-bit value.
pub open spec fn le_u32(v: u32) -> Seq<u8> {
    seq![(v % 256) as u8, ((v / 256) % 256) as u8, ((v / 65536) % 256) as u8, (v / 16777216) as u8]
}

/// Little-endian bytes of a value below 2^24.
pub open spec fn le_u24(v: u32) -> Seq<u8> {
    seq![(v % 256) as u8, ((v / 256) % 256) as u8, ((v / 65536) % 256) as u8]
}

/// Big-endian bytes of a 16-bit value.
pub open spec fn be_u16(v: u16) -> Seq<u8> {
    seq![(v / 256) as u8, (v % 256) as u8]
}

/// The bytes of `b` after writing `d` at position `p`, as a seekable byte
/// stream does it: a gap past the end is filled with zeros, bytes under `d`
/// are replaced and the rest is kept. Writing nothing changes nothing.
pub open spec fn overwrite(b: Seq<u8>, p: nat, d: Seq<u8>) -> Seq<u8> {
    if d.len() == 0 {
        b
    } else {
        overwrite_some(b, p, d)
    }
}

/// The bytes of `b` after writing a non-empty `d` at position `p`.
pub open spec fn overwrite_some(b: Seq<u8>, p: nat, d: Seq<u8>) -> Seq<u8> {
    let padded = if p <= b.len() { b } else { b + Seq::new((p - b.len()) as nat, |i: int| 0u8) };
    padded.take(p as int) + d + (if p + d.len() < padded.len() {
        padded.skip((p + d.len()) as int)
    } else {
        Seq::<u8>::empty()
    })
}

/// The framing of one layer entry: frames to skip, layer index, clear flag,
/// payload length and payload.
pub open spec fn entry_bytes(skip: u32, layer: i32, clear: bool, data: Seq<u8>) -> Seq<u8> {
    le_u32(skip) + le_u32(layer as u32) + seq![if clear { 1u8 } else { 0u8 }] + le_u32(data.len() as u32)
        + data
}

/// The framing of a run of entries, the first skipping `first_skip` frames and
/// the others none.
pub open spec fn entries_bytes(entries: Seq<(Seq<u8>, bool)>, first_skip: u32, layer: i32) -> Seq<u8>
    decreases entries.len(),
{
    if entries.len() == 0 {
        seq![]
    } else {
        entry_bytes(first_skip, layer, entries[0].1, entries[0].0) + entries_bytes(
            entries.skip(1),
            0,
            layer,
        )
    }
}

/// Every payload of a run of entries has a length that fits in 32 bits.
pub open spec fn entries_fit(entries: Seq<(Seq<u8>, bool)>) -> bool {
    forall|i: int| 0 <= i < entries.len() ==> #[trigger] entries[i].0.len() <= u32::MAX
}

pub proof fn lemma_overwrite_concat(b: Seq<u8>, p: nat, d1: Seq<u8>, d2: Seq<u8>)
    ensures
        overwrite(overwrite(b, p, d1), p + d1.len(), d2) == overwrite(b, p, d1 + d2),
{
    let padded = if p <= b.len() { b } else { b + Seq::new((p - b.len()) as nat, |i: int| 0u8) };
    if d1.len() == 0 {
        assert(d1 + d2 =~= d2);
    } else if d2.len() == 0 {
        assert(d1 + d2 =~= d1);
    } else {
        let b1 = overwrite(b, p, d1);
        assert(b1.len() >= p + d1.len());
        let lhs = overwrite(b1, p + d1.len(), d2);
        let rhs = overwrite(b, p, d1 + d2);
        assert(lhs =~= rhs);
    }
}

pub proof fn lemma_entries_bytes_len(entries: Seq<(Seq<u8>, bool)>, first_skip: u32, layer: i32)
    ensures
        entries_bytes(entries, first_skip, layer).len() == entries_bytes(entries, 0, layer).len(),
    decreases entries.len(),
{
}

/// Every layer of a run has no waiting entry.
pub open spec fn all_empty(pend: Seq<Seq<(Seq<u8>, bool)>>) -> bool {
    forall|j: int| 0 <= j < pend.len() ==> (#[trigger] pend[j]).len() == 0
}

/// The framing of the waiting entries of layers `idx`, in order; the first
/// entry framed skips `skip` frames and every later one none.
pub open spec fn flush_bytes(idx: Seq<i32>, pend: Seq<Seq<(Seq<u8>, bool)>>, skip: u32) -> Seq<u8>
    decreases pend.len(),
{
    if pend.len() == 0 {
        seq![]
    } else {
        let n = pend.len() - 1;
        flush_bytes(idx.take(n), pend.take(n), skip) + entries_bytes(
            pend[n],
            if all_empty(pend.take(n)) {
                skip
            } else {
                0
            },
            idx[n],
        )
    }
}

/// The number of waiting entries over all layers.
pub open spec fn total_entries(pend: Seq<Seq<(Seq<u8>, bool)>>) -> nat
    decreases pend.len(),
{
    if pend.len() == 0 {
        0
    } else {
        total_entries(pend.take(pend.len() - 1)) + pend[pend.len() - 1].len()
    }
}

/// Every waiting payload of every layer fits in 32 bits.
pub open spec fn all_fit(pend: Seq<Seq<(Seq<u8>, bool)>>) -> bool {
    forall|j: int| 0 <= j < pend.len() ==> entries_fit(#[trigger] pend[j])
}

/// Framing a longer prefix of the layers gives at least as many bytes and
/// entries.
pub proof fn lemma_flush_prefix(idx: Seq<i32>, pend: Seq<Seq<(Seq<u8>, bool)>>, skip: u32, k: int)
    requires
        0 <= k <= pend.len(),
        pend.len() <= idx.len(),
    ensures
        flush_bytes(idx.take(k), pend.take(k), skip).len() <= flush_bytes(idx, pend, skip).len(),
        total_entries(pend.take(k)) <= total_entries(pend),
    decreases pend.len() - k,
{
    if k == pend.len() {
        assert(pend.take(k) =~= pend);
        if idx.len() > k {
            lemma_flush_idx(idx, pend, skip);
        } else {
            assert(idx.take(k) =~= idx);
        }
    } else {
        lemma_flush_prefix(idx, pend, skip, k + 1);
        let i2 = idx.take(k + 1);
        let p2 = pend.take(k + 1);
        assert(i2.take(k) =~= idx.take(k));
        assert(p2.take(k) =~= pend.take(k));
    }
}

/// Only as many layer indices count as there are layers.
pub proof fn lemma_flush_idx(idx: Seq<i32>, pend: Seq<Seq<(Seq<u8>, bool)>>, skip: u32)
    requires
        pend.len() <= idx.len(),
    ensures
        flush_bytes(idx.take(pend.len() as int), pend, skip) == flush_bytes(idx, pend, skip),
    decreases pend.len(),
{
    if pend.len() > 0 {
        let n = pend.len() - 1;
        lemma_flush_idx(idx.take(n), pend.take(n), skip);
        lemma_flush_idx(idx, pend.take(n), skip);
        assert(idx.take(pend.len() as int).take(n) =~= idx.take(n));
        assert(idx.take(n).take(n) =~= idx.take(n));
    }
}

/// Framing one more layer appends its entries.
pub proof fn lemma_flush_step(idx: Seq<i32>, pend: Seq<Seq<(Seq<u8>, bool)>>, skip: u32, i: int)
    requires
        0 <= i < pend.len(),
        pend.len() <= idx.len(),
    ensures
        flush_bytes(idx.take(i + 1), pend.take(i + 1), skip) == flush_bytes(idx.take(i), pend.take(i), skip) + entries_bytes(
            pend[i],
            if all_empty(pend.take(i)) {
                skip
            } else {
                0
            },
            idx[i],
        ),
        total_entries(pend.take(i + 1)) == total_entries(pend.take(i)) + pend[i].len(),
        all_empty(pend.take(i + 1)) == (all_empty(pend.take(i)) && pend[i].len() == 0),
{
    let p2 = pend.take(i + 1);
    let i2 = idx.take(i + 1);
    assert(p2.take(i) =~= pend.take(i));
    assert(i2.take(i) =~= idx.take(i));
    assert(p2[i] == pend[i]);
    if all_empty(p2) {
        assert(p2[i] == pend[i]);
    }
    if all_empty(pend.take(i)) && pend[i].len() == 0 {
        assert forall|j: int| 0 <= j < p2.len() implies (#[trigger] p2[j]).len() == 0 by {
            if j < i {
                assert(p2[j] == pend.take(i)[j]);
            }
        }
    }
    if all_empty(p2) {
        assert forall|j: int| 0 <= j < i implies (#[trigger] pend.take(i)[j]).len() == 0 by {
            assert(p2[j] == pend.take(i)[j]);
        }
    }
}

/// Writing at the end of a stream appends.
pub proof fn lemma_overwrite_end(b: Seq<u8>, d: Seq<u8>)
    ensures
        overwrite(b, b.len(), d) == b + d,
{
    if d.len() > 0 {
        assert(overwrite(b, b.len(), d) =~= b + d);
    }
}

/// The error of an encoder: a value or a length that the format cannot hold,
/// or a seek before the start of the stream.
#[derive(Clone, Copy, PartialEq, Eq, Structural, Debug)]
pub enum LogError {
    OverU24(u32),
    TooLong(usize),
    InvalidSeek,
}

fn u32_bytes(value: u32) -> (r: [u8; 4])
    ensures
        r@ == le_u32(value),
{
    let b0 = (value & 0xff) as u8;
    let b1 = ((value >> 8) & 0xff) as u8;
    let b2 = ((value >> 16) & 0xff) as u8;
    let b3 = ((value >> 24) & 0xff) as u8;
    assert(b0 == (value % 256) as u8) by (bit_vector)
        requires
            b0 == (value & 0xff) as u8,
    ;
    assert(b1 == ((value / 256) % 256) as u8) by (bit_vector)
        requires
            b1 == ((value >> 8) & 0xff) as u8,
    ;
    assert(b2 == ((value / 65536) % 256) as u8) by (bit_vector)
        requires
            b2 == ((value >> 16) & 0xff) as u8,
    ;
    assert(b3 == (value / 16777216) as u8) by (bit_vector)
        requires
            b3 == ((value >> 24) & 0xff) as u8,
    ;
    let r = [b0, b1, b2, b3];
    assert(r@ =~= le_u32(value));
    r
}

/// A seekable byte stream that counts what was written to it.
pub struct BaseWriter {
    pub bytes: Vec<u8>,
    pub cursor: usize,
    pub offset: u32,
    pub entry_number: u32,
}

impl BaseWriter {
    /// The bytes of the stream.
    pub open spec fn content(&self) -> Seq<u8> {
        self.bytes@
    }

    /// The position at which the next write lands.
    pub open spec fn position(&self) -> nat {
        self.cursor as nat
    }

    pub fn new() -> (r: BaseWriter)
        ensures
            r.content() == Seq::<u8>::empty(),
            r.position() == 0,
            r.offset == 0,
            r.entry_number == 0,
    {
        BaseWriter { bytes: Vec::new(), cursor: 0, offset: 0, entry_number: 0 }
    }

    /// The bytes of the stream, for the caller to store.
    pub fn as_bytes(&self) -> (r: &[u8])
        ensures
            r@ == self.content(),
    {
        self.bytes.as_slice()
    }

    /// Moves the write position by `offset` bytes; a position before the
    /// start is refused and leaves the stream unchanged.
    pub fn seek(&mut self, offset: i64) -> (r: Result<u64, LogError>)
        ensures
            final(self).content() == old(self).content(),
            final(self).offset == old(self).offset,
            final(self).entry_number == old(self).entry_number,
            (old(self).position() + offset < 0 || old(self).position() + offset > usize::MAX) ==> r
                == Err::<u64, LogError>(LogError::InvalidSeek) && final(self).position() == old(self).position(),
            0 <= old(self).position() + offset <= usize::MAX ==> r == Ok::<u64, LogError>(
                (old(self).position() + offset) as u64,
            ) && final(self).position() == old(self).position() + offset,
    {
        let cur = self.cursor as i128;
        let target = cur + offset as i128;
        if target < 0 || target > usize::MAX as i128 {
            Err(LogError::InvalidSeek)
        } else {
            self.cursor = target as usize;
            Ok(target as u64)
        }
    }

    fn put(&mut self, data: &[u8])
        ensures
            final(self).content() == overwrite(old(self).content(), old(self).position(), data@),
            final(self).position() == old(self).position() + data@.len(),
            final(self).offset == old(self).offset,
            final(self).entry_number == old(self).entry_number,
    {
        let ghost b0 = self.bytes@;
        let ghost p0 = self.cursor as nat;
        if data.len() == 0 {
            return;
        }
        while self.bytes.len() < self.cursor
            invariant
                self.cursor == p0,
                self.offset == old(self).offset,
                self.entry_number == old(self).entry_number,
                b0.len() <= self.bytes@.len() <= p0 || self.bytes@ == b0,
                self.bytes@ =~= (if b0.len() <= p0 {
                    b0 + Seq::new((self.bytes@.len() - b0.len()) as nat, |i: int| 0u8)
                } else {
                    b0
                }),
            decreases self.cursor - self.bytes.len(),
        {
            self.bytes.push(0);
        }
        let n = data.len();
        for i in 0..n
            invariant
                n == data@.len(),
                self.cursor == p0 + i,
                self.bytes@.len() >= self.cursor,
                self.offset == old(self).offset,
                self.entry_number == old(self).entry_number,
                self.bytes@ == overwrite_some(b0, p0, data@.take(i as int)),
        {
            proof {
                lemma_overwrite_concat(b0, p0, data@.take(i as int), seq![data@[i as int]]);
                assert(data@.take(i as int) + seq![data@[i as int]] =~= data@.take(i + 1));
            }
            if self.cursor < self.bytes.len() {
                self.bytes.set(self.cursor, data[i]);
            } else {
                self.bytes.push(data[i]);
            }
            assert(self.bytes@ =~= overwrite_some(b0, p0, data@.take(i + 1)));
            let len_now = self.bytes.len();
            assert(len_now > self.cursor);
            self.cursor = self.cursor + 1;
        }
        assert(data@.take(n as int) =~= data@);
    }

    /// Writes one byte.
    pub fn write_u8(&mut self, value: u8) -> (r: usize)
        requires
            old(self).offset + 1 <= u32::MAX,
        ensures
            r == 1,
            final(self).content() == overwrite(old(self).content(), old(self).position(), seq![value]),
            final(self).position() == old(self).position() + 1,
            final(self).offset == old(self).offset + 1,
            final(self).entry_number == old(self).entry_number,
    {
        let data = [value];
        assert(data@ =~= seq![value]);
        self.put(&data);
        self.offset = self.offset + 1;
        1
    }

    /// Writes a 32-bit value, least significant byte first.
    pub fn write_u32(&mut self, value: u32) -> (r: usize)
        requires
            old(self).offset + 4 <= u32::MAX,
        ensures
            r == 4,
            final(self).content() == overwrite(old(self).content(), old(self).position(), le_u32(value)),
            final(self).position() == old(self).position() + 4,
            final(self).offset == old(self).offset + 4,
            final(self).entry_number == old(self).entry_number,
    {
        let data = u32_bytes(value);
        self.put(&data);
        self.offset = self.offset + 4;
        4
    }

    /// Writes a signed 32-bit value as its two's complement bits.
    /// Writes a 32-bit float, given by its bits, least significant byte
    /// first.
    pub fn write_f32(&mut self, bits: u32) -> (r: usize)
        requires
            old(self).offset + 4 <= u32::MAX,
        ensures
            r == 4,
            final(self).content() == overwrite(old(self).content(), old(self).position(), le_u32(bits)),
            final(self).position() == old(self).position() + 4,
            final(self).offset == old(self).offset + 4,
            final(self).entry_number == old(self).entry_number,
    {
        self.write_u32(bits)
    }

    pub fn write_i32(&mut self, value: i32) -> (r: usize)
        requires
            old(self).offset + 4 <= u32::MAX,
        ensures
            r == 4,
            final(self).content() == overwrite(
                old(self).content(),
                old(self).position(),
                le_u32(value as u32),
            ),
            final(self).position() == old(self).position() + 4,
            final(self).offset == old(self).offset + 4,
            final(self).entry_number == old(self).entry_number,
    {
        self.write_u32(value as u32)
    }

    /// Writes a run of bytes.
    pub fn write(&mut self, buffer: &[u8]) -> (r: usize)
        requires
            old(self).offset + buffer@.len() <= u32::MAX,
        ensures
            r == buffer@.len(),
            final(self).content() == overwrite(old(self).content(), old(self).position(), buffer@),
            final(self).position() == old(self).position() + buffer@.len(),
            final(self).offset == old(self).offset + buffer@.len(),
            final(self).entry_number == old(self).entry_number,
    {
        self.put(buffer);
        self.offset = self.offset + buffer.len() as u32;
        buffer.len()
    }

    /// Ends the stream; the bytes stay as they are.
    pub fn finish(&mut self)
        ensures
            *final(self) == *old(self),
    {
    }

    /// Frames one layer entry and counts it.
    pub fn write_entry(&mut self, skip_frame_size: u32, layer_index: i32, clear: bool, buffer: &[u8]) -> (r:
        usize)
        requires
            buffer@.len() <= u32::MAX,
            old(self).offset + 13 + buffer@.len() <= u32::MAX,
            old(self).entry_number + 1 <= u32::MAX,
        ensures
            r == buffer@.len(),
            final(self).content() == overwrite(
                old(self).content(),
                old(self).position(),
                entry_bytes(skip_frame_size, layer_index, clear, buffer@),
            ),
            final(self).position() == old(self).position() + 13 + buffer@.len(),
            final(self).offset == old(self).offset + 13 + buffer@.len(),
            final(self).entry_number == old(self).entry_number + 1,
    {
        let ghost b0 = self.content();
        let ghost p0 = self.position();
        self.entry_number = self.entry_number + 1;
        self.write_u32(skip_frame_size);
        self.write_i32(layer_index);
        self.write_u8(if clear { 1 } else { 0 });
        self.write_u32(buffer.len() as u32);
        let r = self.write(buffer);
        proof {
            let s1 = le_u32(skip_frame_size);
            let s2 = le_u32(layer_index as u32);
            let s3 = seq![if clear { 1u8 } else { 0u8 }];
            let s4 = le_u32(buffer@.len() as u32);
            lemma_overwrite_concat(b0, p0, s1, s2);
            lemma_overwrite_concat(b0, p0, s1 + s2, s3);
            lemma_overwrite_concat(b0, p0, s1 + s2 + s3, s4);
            lemma_overwrite_concat(b0, p0, s1 + s2 + s3 + s4, buffer@);
        }
        r
    }
}

/// A buffered run of entries of one layer.
pub struct LayerEntry {
    buffer: Vec<u8>,
    should_clear: bool,
}

impl LayerEntry {
    /// The payload written so far.
    pub closed spec fn data(&self) -> Seq<u8> {
        self.buffer@
    }

    /// Whether the entry clears its layer before drawing.
    pub closed spec fn clears(&self) -> bool {
        self.should_clear
    }

    pub fn new(should_clear: bool) -> (r: LayerEntry)
        ensures
            r.data() == Seq::<u8>::empty(),
            r.clears() == should_clear,
    {
        LayerEntry { buffer: Vec::new(), should_clear }
    }

    /// The payload bytes.
    pub fn payload(&self) -> (r: &[u8])
        ensures
            r@ == self.data(),
    {
        self.buffer.as_slice()
    }

    /// Whether the entry clears its layer.
    pub fn should_clear(&self) -> (r: bool)
        ensures
            r == self.clears(),
    {
        self.should_clear
    }

    /// Appends a run of bytes to the payload.
    pub fn write(&mut self, buffer: &[u8]) -> (r: usize)
        ensures
            r == buffer@.len(),
            final(self).data() == old(self).data() + buffer@,
            final(self).clears() == old(self).clears(),
    {
        let n = buffer.len();
        for i in 0..n
            invariant
                n == buffer@.len(),
                self.buffer@ == old(self).data() + buffer@.take(i as int),
                self.should_clear == old(self).clears(),
        {
            self.buffer.push(buffer[i]);
            assert(old(self).data() + buffer@.take(i + 1) =~= self.buffer@);
        }
        assert(buffer@.take(n as int) =~= buffer@);
        n
    }

    pub fn write_u8(&mut self, value: u8) -> (r: usize)
        ensures
            r == 1,
            final(self).data() == old(self).data() + seq![value],
            final(self).clears() == old(self).clears(),
    {
        let data = [value];
        assert(data@ =~= seq![value]);
        self.write(&data)
    }

    /// Appends a 32-bit value, least significant byte first.
    pub fn write_u32(&mut self, value: u32) -> (r: usize)
        ensures
            r == 4,
            final(self).data() == old(self).data() + le_u32(value),
            final(self).clears() == old(self).clears(),
    {
        let data = u32_bytes(value);
        self.write(&data)
    }

    /// Appends a 32-bit float, given by its bits, least significant byte
    /// first.
    pub fn write_f32(&mut self, bits: u32) -> (r: usize)
        ensures
            r == 4,
            final(self).data() == old(self).data() + le_u32(bits),
            final(self).clears() == old(self).clears(),
    {
        self.write_u32(bits)
    }

    /// Appends a value below 2^24 as three bytes, least significant first;
    /// a larger value is refused and nothing is written.
    pub fn write_u24(&mut self, value: u32) -> (r: Result<usize, LogError>)
        ensures
            value < 0x1000000 ==> r == Ok::<usize, LogError>(3) && final(self).data() == old(self).data() + le_u24(value),
            value >= 0x1000000 ==> r == Err::<usize, LogError>(LogError::OverU24(value)) && final(self).data() == old(self).data(),
            final(self).clears() == old(self).clears(),
    {
        if ((value >> 24) & 0xff) != 0 {
            assert(value >= 0x1000000) by (bit_vector)
                requires
                    ((value >> 24) & 0xff) != 0,
            ;
            return Err(LogError::OverU24(value));
        }
        assert(value < 0x1000000) by (bit_vector)
            requires
                ((value >> 24) & 0xff) == 0,
        ;
        let full = u32_bytes(value);
        let data = [full[0], full[1], full[2]];
        assert(data@ =~= le_u24(value));
        Ok(self.write(&data))
    }

    /// Appends a 16-bit value, most significant byte first.
    pub fn write_u16(&mut self, value: u16) -> (r: usize)
        ensures
            r == 2,
            final(self).data() == old(self).data() + be_u16(value),
            final(self).clears() == old(self).clears(),
    {
        let hi = ((value >> 8) & 0xff) as u8;
        let lo = (value & 0xff) as u8;
        assert(hi == (value / 256) as u8) by (bit_vector)
            requires
                hi == ((value >> 8) & 0xff) as u8,
        ;
        assert(lo == (value % 256) as u8) by (bit_vector)
            requires
                lo == (value & 0xff) as u8,
        ;
        let data = [hi, lo];
        assert(data@ =~= be_u16(value));
        self.write(&data)
    }

    pub fn write_i32(&mut self, value: i32) -> (r: usize)
        ensures
            r == 4,
            final(self).data() == old(self).data() + le_u32(value as u32),
            final(self).clears() == old(self).clears(),
    {
        self.write_u32(value as u32)
    }

    /// Appends a string of at most 65535 bytes, prefixed by its length;
    /// a longer string is refused and nothing is written.
    pub fn write_short_str(&mut self, string: &str) -> (r: Result<(), LogError>)
        ensures
            string.spec_bytes().len() <= u16::MAX ==> r == Ok::<(), LogError>(()) && final(self).data()
                == old(self).data() + be_u16(string.spec_bytes().len() as u16) + string.spec_bytes(),
            string.spec_bytes().len() > u16::MAX ==> r == Err::<(), LogError>(
                LogError::TooLong(string.spec_bytes().len() as usize),
            ) && final(self).data() == old(self).data(),
            final(self).clears() == old(self).clears(),
    {
        let bytes = string.as_bytes();
        let len = bytes.len();
        if len > 65535 {
            return Err(LogError::TooLong(len));
        }
        self.write_u16(len as u16);
        self.write(bytes);
        Ok(())
    }

    /// Appends a string of at most 2^24 - 1 bytes, prefixed by its length;
    /// a longer string is refused and nothing is written.
    pub fn write_long_str(&mut self, string: &str) -> (r: Result<(), LogError>)
        ensures
            string.spec_bytes().len() <= 0xFFFFFF ==> r == Ok::<(), LogError>(()) && final(self).data()
                == old(self).data() + le_u24(string.spec_bytes().len() as u32) + string.spec_bytes(),
            string.spec_bytes().len() > 0xFFFFFF ==> r == Err::<(), LogError>(
                LogError::TooLong(string.spec_bytes().len() as usize),
            ) && final(self).data() == old(self).data(),
            final(self).clears() == old(self).clears(),
    {
        let bytes = string.as_bytes();
        let len = bytes.len();
        if len > 0xFFFFFF {
            return Err(LogError::TooLong(len));
        }
        let _ = self.write_u24(len as u32);
        self.write(bytes);
        Ok(())
    }
}

/// The entries of one layer that wait for the next frame.
pub struct BaseLayerWriter {
    entries: Vec<LayerEntry>,
}

impl BaseLayerWriter {
    /// The waiting entries, as payload and clear flag.
    pub closed spec fn pending(&self) -> Seq<(Seq<u8>, bool)> {
        self.entries@.map_values(|e: LayerEntry| (e.data(), e.clears()))
    }

    pub fn new() -> (r: BaseLayerWriter)
        ensures
            r.pending() == Seq::<(Seq<u8>, bool)>::empty(),
    {
        BaseLayerWriter { entries: Vec::new() }
    }

    /// The entry that takes the next command: the last one, or a new
    /// non-clearing one where there is none.
    pub fn entry(&mut self) -> (r: &mut LayerEntry)
        ensures
            old(self).pending().len() > 0 ==> (r.data(), r.clears()) == old(self).pending().last(),
            old(self).pending().len() == 0 ==> r.data() == Seq::<u8>::empty() && !r.clears(),
            final(self).pending() == (if old(self).pending().len() > 0 {
                old(self).pending().drop_last()
            } else {
                old(self).pending()
            }).push((final(r).data(), final(r).clears())),
    {
        if self.entries.len() == 0 {
            self.entries.push(LayerEntry::new(false));
        }
        let n = self.entries.len();
        let r = &mut self.entries[n - 1];
        r
    }

    /// Starts a new entry that clears the layer.
    pub fn clear(&mut self)
        ensures
            final(self).pending() == old(self).pending().push((Seq::<u8>::empty(), true)),
    {
        self.entries.push(LayerEntry::new(true));
        assert(self.pending() =~= old(self).pending().push((Seq::<u8>::empty(), true)));
    }

    /// Frames the waiting entries into `writer` at frame `step`, the first
    /// skipping the frames since `last_step`, and empties the layer.
    pub fn write_entries(
        &mut self,
        writer: &mut BaseWriter,
        last_step: &mut u32,
        step: u32,
        layer_index: i32,
    )
        requires
            step >= *old(last_step),
            entries_fit(old(self).pending()),
            old(writer).offset + entries_bytes(old(self).pending(), 0, layer_index).len() <= u32::MAX,
            old(writer).entry_number + old(self).pending().len() <= u32::MAX,
        ensures
            final(self).pending() == Seq::<(Seq<u8>, bool)>::empty(),
            final(writer).content() == overwrite(
                old(writer).content(),
                old(writer).position(),
                entries_bytes(old(self).pending(), (step - *old(last_step)) as u32, layer_index),
            ),
            final(writer).position() == old(writer).position() + entries_bytes(
                old(self).pending(),
                0,
                layer_index,
            ).len(),
            final(writer).offset == old(writer).offset + entries_bytes(
                old(self).pending(),
                0,
                layer_index,
            ).len(),
            final(writer).entry_number == old(writer).entry_number + old(self).pending().len(),
            *final(last_step) == if old(self).pending().len() > 0 {
                step
            } else {
                *old(last_step)
            },
    {
        let ghost all = self.pending();
        let ghost first = (step - *last_step) as u32;
        let ghost b0 = writer.content();
        let ghost p0 = writer.position();
        let ghost o0 = writer.offset;
        let ghost n0 = writer.entry_number;
        let n = self.entries.len();
        proof {
            lemma_entries_bytes_len(all, first, layer_index);
            assert(all.take(0) =~= Seq::<(Seq<u8>, bool)>::empty());
            assert(entries_bytes(all.take(0), first, layer_index) =~= Seq::<u8>::empty());
        }
        for i in 0..n
            invariant
                n == self.entries@.len(),
                all == self.pending(),
                all.len() == n,
                entries_fit(all),
                step >= *old(last_step),
                first == (step - *old(last_step)) as u32,
                i == 0 ==> *last_step == *old(last_step),
                i > 0 ==> *last_step == step,
                o0 + entries_bytes(all, 0, layer_index).len() <= u32::MAX,
                n0 + n <= u32::MAX,
                writer.entry_number == n0 + i,
                writer.content() == overwrite(
                    b0,
                    p0,
                    entries_bytes(all.take(i as int), first, layer_index),
                ),
                writer.position() == p0 + entries_bytes(all.take(i as int), first, layer_index).len(),
                writer.offset == o0 + entries_bytes(all.take(i as int), first, layer_index).len(),
        {
            proof {
                lemma_entries_split(all, first, layer_index, i as int);
                lemma_entries_split(all, 0, layer_index, i as int);
                lemma_entries_prefix_len(all, 0, layer_index, i + 1);
                lemma_entries_bytes_len(all.take(i + 1), first, layer_index);
                lemma_entries_bytes_len(all.take(i as int), first, layer_index);
            }
            let entry = &self.entries[i];
            assert(all[i as int] == (entry.data(), entry.clears()));
            let skip = step - *last_step;
            writer.write_entry(skip, layer_index, entry.should_clear(), entry.payload());
            *last_step = step;
            proof {
                let piece = entry_bytes(if i == 0 { first } else { 0 }, layer_index, all[i as int].1, all[i as int].0);
                lemma_overwrite_concat(
                    b0,
                    p0,
                    entries_bytes(all.take(i as int), first, layer_index),
                    piece,
                );
            }
        }
        proof {
            assert(all.take(n as int) =~= all);
        }
        self.entries.clear();
        assert(self.pending() =~= Seq::<(Seq<u8>, bool)>::empty());
    }
}

proof fn lemma_entries_split(entries: Seq<(Seq<u8>, bool)>, first: u32, layer: i32, i: int)
    requires
        0 <= i < entries.len(),
    ensures
        entries_bytes(entries.take(i + 1), first, layer) == entries_bytes(entries.take(i), first, layer)
            + entry_bytes(if i == 0 { first } else { 0 }, layer, entries[i].1, entries[i].0),
    decreases i,
{
    assert(entries_bytes(Seq::<(Seq<u8>, bool)>::empty(), 0, layer) =~= Seq::<u8>::empty());
    if i == 0 {
        assert(entries.take(1).skip(1) =~= Seq::<(Seq<u8>, bool)>::empty());
        assert(entries.take(1)[0] == entries[0]);
        assert(entries.take(0) =~= Seq::<(Seq<u8>, bool)>::empty());
        assert(entries_bytes(entries.take(1), first, layer) =~= entry_bytes(
            first,
            layer,
            entries[0].1,
            entries[0].0,
        ));
    } else {
        let rest = entries.skip(1);
        lemma_entries_split(rest, 0, layer, i - 1);
        assert(entries.take(i + 1).skip(1) =~= rest.take(i));
        assert(entries.take(i).skip(1) =~= rest.take(i - 1));
        assert(entries.take(i + 1)[0] == entries[0]);
        assert(entries.take(i)[0] == entries[0]);
        assert(rest[i - 1] == entries[i]);
        let e0 = entry_bytes(first, layer, entries[0].1, entries[0].0);
        assert(entries_bytes(entries.take(i + 1), first, layer) == e0 + entries_bytes(rest.take(i), 0, layer));
        assert(entries_bytes(entries.take(i), first, layer) == e0 + entries_bytes(rest.take(i - 1), 0, layer));
        assert(entries_bytes(entries.take(i + 1), first, layer) =~= entries_bytes(entries.take(i), first, layer)
            + entry_bytes(0, layer, entries[i].1, entries[i].0));
    }
}

proof fn lemma_entries_prefix_len(entries: Seq<(Seq<u8>, bool)>, first: u32, layer: i32, k: int)
    requires
        0 <= k <= entries.len(),
    ensures
        entries_bytes(entries.take(k), first, layer).len() <= entries_bytes(entries, first, layer).len(),
    decreases k,
{
    if k == 0 {
        assert(entries.take(0) =~= Seq::<(Seq<u8>, bool)>::empty());
    } else {
        let rest = entries.skip(1);
        lemma_entries_prefix_len(rest, 0, layer, k - 1);
        assert(entries.take(k).skip(1) =~= rest.take(k - 1));
        assert(entries.take(k)[0] == entries[0]);
    }
}

/// A log format that frames the entries of its layers step by step.
/// The frames a run of calls moves on: `offset` for each `skip(offset)`,
/// one for each `step`.
pub open spec fn frames(offsets: Seq<u32>) -> int
    decreases offsets.len(),
{
    if offsets.len() == 0 {
        0
    } else {
        frames(offsets.drop_last()) + offsets.last()
    }
}

pub trait LogWriter {
    /// Whether `skip(offset)` keeps the frame counter, the byte count and
    /// the entry count within 32 bits.
    spec fn can_skip(&self, offset: u32) -> bool;

    /// Whether `finish` keeps the byte count and the entry count within 32
    /// bits.
    spec fn can_finish(&self) -> bool;

    fn finish(&mut self) -> Result<(), LogError>
        requires
            old(self).can_finish(),
    ;

    fn step(&mut self) -> Result<(), LogError>
        requires
            old(self).can_skip(1),
    ;

    fn skip(&mut self, offset: u32) -> Result<(), LogError>
        requires
            old(self).can_skip(offset),
    ;
}

/// A layer of a log format that can start a cleared entry.
pub trait LogLayerWriter {
    fn clear(&mut self);
}

} // verus!
