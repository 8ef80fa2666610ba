//! The text-log writer: a header with the frame rate, then, frame by frame,
//! the texts printed on each layer in the order of the layers' indices;
//! finishing fills in the frame and entry counts that the header left open.
use vstd::prelude::*;
use vstd::string::StringSliceAdditionalSpecFns;
use crate::log_write::{
    all_empty, all_fit, entries_bytes, entries_fit, flush_bytes, frames, le_u24, le_u32, lemma_entries_bytes_len, lemma_flush_prefix,
    lemma_flush_step, lemma_overwrite_concat, lemma_overwrite_end, overwrite, total_entries, BaseLayerWriter, BaseWriter,
    LogError, LogLayerWriter, LogWriter,
};
use crate::vilog::{
    append_u32, appended, lemma_appended_concat, lemma_layer_twice, lemma_slot, lemma_slot_found, rising, slot, with_layer,
};

verus! {

/// The commands of the format.
#[derive(Clone, Copy, PartialEq, Eq, Structural, Debug)]
pub enum TrlogCommandKind {
    Print,
}

/// The byte of a command.
pub open spec fn trlog_code(k: TrlogCommandKind) -> u8 {
    match k {
        TrlogCommandKind::Print => 0,
    }
}

impl TrlogCommandKind {
    /// The byte of the command.
    pub fn code(&self) -> (r: u8)
        ensures
            r == trlog_code(*self),
    {
        match self {
            TrlogCommandKind::Print => 0,
        }
    }
}

/// The frame rate of a text log, held as the bits of a 32-bit float.
pub struct TrlogConfig {
    pub fps_bits: u32,
}

impl TrlogConfig {
    /// Fifteen frames a second.
    pub fn new() -> (r: TrlogConfig)
        ensures
            r.fps_bits == 0x41700000u32,
    {
        TrlogConfig { fps_bits: 0x41700000 }
    }
}

/// The header of a text log, its last twelve bytes left for `finish`.
pub open spec fn trlog_header(c: TrlogConfig) -> Seq<u8> {
    seq![116u8, 114u8, 108u8, 111u8] + le_u32(1) + le_u32(16) + le_u32(c.fps_bits) + le_u32(0xFFFFFFFF) + le_u32(0xFFFFFFFF)
        + le_u32(0xFFFFFFFF)
}

/// One layer of a text log: the texts it waits to frame.
pub struct TrlogLayerWriter {
    writer: BaseLayerWriter,
}

impl TrlogLayerWriter {
    /// The entries waiting for the next frame.
    pub closed spec fn pending(&self) -> Seq<(Seq<u8>, bool)> {
        self.writer.pending()
    }

    pub fn new() -> (r: TrlogLayerWriter)
        ensures
            r.pending() == Seq::<(Seq<u8>, bool)>::empty(),
    {
        TrlogLayerWriter { writer: BaseLayerWriter::new() }
    }

    /// Prints `text`: the command's byte, then the text with its length. A
    /// text of more than 2^24 - 1 bytes is refused after the command's byte.
    pub fn print(&mut self, text: &str) -> (r: Result<(), LogError>)
        ensures
            text.spec_bytes().len() <= 0xFFFFFF ==> r is Ok && final(self).pending() == appended(
                old(self).pending(),
                seq![trlog_code(TrlogCommandKind::Print)] + le_u24(text.spec_bytes().len() as u32) + text.spec_bytes(),
            ),
            text.spec_bytes().len() > 0xFFFFFF ==> r == Err::<(), LogError>(LogError::TooLong(text.spec_bytes().len() as usize))
                && final(self).pending() == appended(old(self).pending(), seq![trlog_code(TrlogCommandKind::Print)]),
    {
        let code = TrlogCommandKind::Print.code();
        let entry = self.writer.entry();
        entry.write_u8(code);
        let r = entry.write_long_str(text);
        proof {
            let base = if old(self).pending().len() > 0 { old(self).pending().last().0 } else { Seq::<u8>::empty() };
            if text.spec_bytes().len() <= 0xFFFFFF {
                assert(entry.data() =~= base + (seq![code] + le_u24(text.spec_bytes().len() as u32) + text.spec_bytes()));
            }
        }
        r
    }

    /// Prints `text` and a line break.
    pub fn println(&mut self, text: &str) -> (r: Result<(), LogError>)
        requires
            text.spec_bytes().len() < usize::MAX,
        ensures
            text.spec_bytes().len() + 1 <= 0xFFFFFF ==> r is Ok && final(self).pending() == appended(
                old(self).pending(),
                seq![trlog_code(TrlogCommandKind::Print)] + le_u24((text.spec_bytes().len() + 1) as u32) + text.spec_bytes()
                    + seq![10u8],
            ),
            text.spec_bytes().len() + 1 > 0xFFFFFF ==> r == Err::<(), LogError>(
                LogError::TooLong((text.spec_bytes().len() + 1) as usize),
            ) && final(self).pending() == appended(old(self).pending(), seq![trlog_code(TrlogCommandKind::Print)]),
    {
        let code = TrlogCommandKind::Print.code();
        let bytes = text.as_bytes();
        let len = bytes.len();
        let entry = self.writer.entry();
        entry.write_u8(code);
        if len >= 0xFFFFFF {
            proof {
                let base = if old(self).pending().len() > 0 { old(self).pending().last().0 } else { Seq::<u8>::empty() };
                assert(entry.data() =~= base + seq![code]);
            }
            return Err(LogError::TooLong(len + 1));
        }
        let _ = entry.write_u24((len + 1) as u32);
        entry.write(bytes);
        entry.write_u8(10);
        proof {
            let base = if old(self).pending().len() > 0 { old(self).pending().last().0 } else { Seq::<u8>::empty() };
            assert(entry.data() =~= base + (seq![code] + le_u24((len + 1) as u32) + text.spec_bytes() + seq![10u8]));
        }
        Ok(())
    }
}

impl LogLayerWriter for TrlogLayerWriter {
    /// Starts a new entry that clears the layer.
    fn clear(&mut self)
        ensures
            final(self).pending() == old(self).pending().push((Seq::<u8>::empty(), true)),
    {
        self.writer.clear()
    }
}

/// A text log being written: the header, the frames so far, and the layers
/// with the texts that wait for the next frame.
pub struct TrlogWriter {
    writer: BaseWriter,
    last_step: u32,
    step: u32,
    indices: Vec<i32>,
    layers: Vec<TrlogLayerWriter>,
}

impl TrlogWriter {
    /// The layers are kept in rising order of index, and the stream is
    /// written at its end.
    pub closed spec fn wf(&self) -> bool {
        &&& self.indices@.len() == self.layers@.len()
        &&& rising(self.indices@)
        &&& self.writer.position() == self.writer.content().len()
        &&& self.writer.offset == self.writer.content().len()
        &&& self.writer.content().len() >= 28
        &&& self.last_step <= self.step
    }

    /// The bytes written so far.
    pub closed spec fn content(&self) -> Seq<u8> {
        self.writer.content()
    }

    /// A well formed writer keeps its layer indices rising.
    pub proof fn lemma_indices_rise(&self)
        requires
            self.wf(),
        ensures
            rising(self.layer_indices()),
    {
    }

    /// The indices of the layers, rising.
    pub closed spec fn layer_indices(&self) -> Seq<i32> {
        self.indices@
    }

    /// The layers, in the order of their indices.
    pub closed spec fn layer_list(&self) -> Seq<TrlogLayerWriter> {
        self.layers@
    }

    /// The frame being drawn.
    pub closed spec fn current_step(&self) -> u32 {
        self.step
    }

    /// The frame of the last entry written.
    pub closed spec fn framed_step(&self) -> u32 {
        self.last_step
    }

    /// The number of entries written.
    pub closed spec fn entry_count(&self) -> u32 {
        self.writer.entry_number
    }

    /// Starts a log with the header of `config`.
    pub fn new(config: TrlogConfig) -> (r: TrlogWriter)
        ensures
            r.wf(),
            r.content() == trlog_header(config),
            r.layer_indices() == Seq::<i32>::empty(),
            r.layer_list() == Seq::<TrlogLayerWriter>::empty(),
            r.current_step() == 0,
            r.framed_step() == 0,
            r.entry_count() == 0,
    {
        let mut w = BaseWriter::new();
        let magic: [u8; 4] = [116, 114, 108, 111];
        w.write(&magic);
        proof {
            lemma_overwrite_end(Seq::<u8>::empty(), magic@);
            assert(magic@ =~= seq![116u8, 114u8, 108u8, 111u8]);
        }
        append_u32(&mut w, 1);
        append_u32(&mut w, 16);
        append_u32(&mut w, config.fps_bits);
        append_u32(&mut w, 0xFFFFFFFF);
        append_u32(&mut w, 0xFFFFFFFF);
        append_u32(&mut w, 0xFFFFFFFF);
        proof {
            assert(w.content() =~= trlog_header(config));
        }
        TrlogWriter { writer: w, last_step: 0, step: 0, indices: Vec::new(), layers: Vec::new() }
    }

    /// The bytes written so far, for the caller to store.
    pub fn as_bytes(&self) -> (r: &[u8])
        ensures
            r@ == self.content(),
    {
        self.writer.as_bytes()
    }

    /// The layer of index `index`, made empty where there is none yet.
    pub fn layer(&mut self, index: i32) -> (r: &mut TrlogLayerWriter)
        requires
            old(self).wf(),
        ensures
            ({
                let pos = slot(old(self).layer_indices(), index);
                let present = pos < old(self).layer_indices().len() && old(self).layer_indices()[pos] == index;
                &&& present ==> *r == old(self).layer_list()[pos] && final(self).layer_indices() == old(self).layer_indices()
                    && final(self).layer_list() == old(self).layer_list().update(pos, *final(r))
                &&& !present ==> r.pending() == Seq::<(Seq<u8>, bool)>::empty()
                    && final(self).layer_indices() == old(self).layer_indices().insert(pos, index)
                    && final(self).layer_list() == old(self).layer_list().insert(pos, *final(r))
            }),
            final(self).wf(),
            final(self).content() == old(self).content(),
            final(self).current_step() == old(self).current_step(),
            final(self).framed_step() == old(self).framed_step(),
            final(self).entry_count() == old(self).entry_count(),
            final(self).layer_indices() == with_layer(old(self).layer_indices(), index),
            final(self).layer_indices().contains(index),
            old(self).layer_indices().contains(index) ==> final(self).layer_indices() == old(self).layer_indices()
                && final(self).layer_list().len() == old(self).layer_list().len() && *r == old(self).layer_list()[slot(
                old(self).layer_indices(),
                index,
            )],
    {
        proof {
            lemma_layer_twice(self.indices@, index);
            if self.indices@.contains(index) {
                lemma_slot_found(self.indices@, index);
            }
        }
        let n = self.indices.len();
        let mut pos: usize = 0;
        while pos < n && self.indices[pos] < index
            invariant
                n == self.indices@.len(),
                pos <= n,
                forall|j: int| 0 <= j < pos ==> self.indices@[j] < index,
            decreases n - pos,
        {
            pos = pos + 1;
        }
        proof {
            lemma_slot(self.indices@, index, pos as int);
        }
        if pos < n && self.indices[pos] == index {
            return &mut self.layers[pos];
        }
        let ghost old_idx = self.indices@;
        self.indices.insert(pos, index);
        self.layers.insert(pos, TrlogLayerWriter::new());
        proof {
            assert forall|i: int, j: int| 0 <= i < j < self.indices@.len() implies self.indices@[i] < self.indices@[j] by {
                if i < pos && j == pos {
                } else if i == pos && j > pos {
                    assert(self.indices@[j] == old_idx[j - 1]);
                } else if j < pos {
                } else if i > pos {
                    assert(self.indices@[i] == old_idx[i - 1]);
                    assert(self.indices@[j] == old_idx[j - 1]);
                } else {
                    assert(self.indices@[j] == old_idx[j - 1]);
                }
            }
        }
        &mut self.layers[pos]
    }

    /// The frame being drawn.
    pub fn get_step(&self) -> (r: u32)
        ensures
            r == self.current_step(),
    {
        self.step
    }

    /// The waiting entries of every layer.
    pub closed spec fn pendings(&self) -> Seq<Seq<(Seq<u8>, bool)>> {
        self.layers@.map_values(|l: TrlogLayerWriter| l.pending())
    }

    /// Whether framing the waiting entries keeps the byte count and the entry
    /// count within 32 bits, with room for `extra` more bytes.
    pub closed spec fn flush_fits(&self, extra: int) -> bool {
        &&& all_fit(self.pendings())
        &&& self.writer.offset + flush_bytes(self.indices@, self.pendings(), (self.step - self.last_step) as u32).len() + extra
            <= u32::MAX
        &&& self.writer.entry_number + total_entries(self.pendings()) <= u32::MAX
    }

    /// Frames the waiting entries of every layer, in the order of their
    /// indices, at the current frame.
    fn write_step(&mut self)
        requires
            old(self).wf(),
            old(self).flush_fits(0),
        ensures
            final(self).wf(),
            final(self).content() == old(self).content() + flush_bytes(
                old(self).indices@,
                old(self).pendings(),
                (old(self).step - old(self).last_step) as u32,
            ),
            final(self).writer.offset == old(self).writer.offset + flush_bytes(
                old(self).indices@,
                old(self).pendings(),
                (old(self).step - old(self).last_step) as u32,
            ).len(),
            final(self).indices@ == old(self).indices@,
            final(self).layers@.len() == old(self).layers@.len(),
            forall|j: int| 0 <= j < final(self).layers@.len() ==> (#[trigger] final(self).layers@[j]).pending() == Seq::<(Seq<u8>, bool)>::empty(),
            final(self).step == old(self).step,
            final(self).last_step == if all_empty(old(self).pendings()) {
                old(self).last_step
            } else {
                old(self).step
            },
            final(self).writer.entry_number == old(self).writer.entry_number + total_entries(old(self).pendings()),
    {
        let ghost pend = self.pendings();
        let ghost idx = self.indices@;
        let ghost skip0 = (self.step - self.last_step) as u32;
        let ghost c0 = self.writer.content();
        let ghost o0 = self.writer.offset;
        let ghost e0 = self.writer.entry_number;
        let ghost l0 = self.last_step;
        let ghost layers0 = self.layers@;
        let n = self.layers.len();
        proof {
            assert(pend.take(0) =~= Seq::<Seq<(Seq<u8>, bool)>>::empty());
            assert(idx.take(0) =~= Seq::<i32>::empty());
        }
        for i in 0..n
            invariant
                n == self.layers@.len(),
                n == idx.len(),
                pend.len() == n,
                idx == self.indices@,
                rising(idx),
                self.step >= l0,
                skip0 == (self.step - l0) as u32,
                all_fit(pend),
                o0 + flush_bytes(idx, pend, skip0).len() <= u32::MAX,
                e0 + total_entries(pend) <= u32::MAX,
                self.writer.content() == c0 + flush_bytes(idx.take(i as int), pend.take(i as int), skip0),
                self.writer.position() == self.writer.content().len(),
                self.writer.offset == o0 + flush_bytes(idx.take(i as int), pend.take(i as int), skip0).len(),
                o0 == c0.len(),
                c0.len() >= 28,
                self.writer.entry_number == e0 + total_entries(pend.take(i as int)),
                self.last_step == if all_empty(pend.take(i as int)) { l0 } else { self.step },
                forall|j: int| 0 <= j < i ==> (#[trigger] self.layers@[j]).pending() == Seq::<(Seq<u8>, bool)>::empty(),
                forall|j: int| i <= j < n ==> #[trigger] self.layers@[j] == layers0[j],
                forall|j: int| 0 <= j < n ==> #[trigger] pend[j] == layers0[j].pending(),
        {
            proof {
                lemma_flush_step(idx, pend, skip0, i as int);
                lemma_flush_prefix(idx, pend, skip0, i + 1);
                lemma_entries_bytes_len(pend[i as int], if all_empty(pend.take(i as int)) { skip0 } else { 0 }, idx[i as int]);
                lemma_entries_bytes_len(pend[i as int], (self.step - self.last_step) as u32, idx[i as int]);
                assert(entries_fit(pend[i as int]));
            }
            let index = self.indices[i];
            let step = self.step;
            let ghost cb = self.writer.content();
            self.layers[i].writer.write_entries(&mut self.writer, &mut self.last_step, step, index);
            proof {
                lemma_overwrite_end(cb, entries_bytes(pend[i as int], (step - l0) as u32, index));
            }
        }
        proof {
            assert(pend.take(n as int) =~= pend);
            assert(idx.take(n as int) =~= idx);
        }
    }
}


/// The bytes that `finish` writes over the end of the header: the number of
/// frames, of entries and of bytes after the header.
pub open spec fn trlog_counts(steps: u32, entries: u32, size: u32) -> Seq<u8> {
    le_u32(steps) + le_u32(entries) + le_u32(size)
}

/// The frame counter that `get_step` reads, after a run of `step` and
/// `skip` calls on a new writer, is the number of `step` calls plus the sum
/// of the `skip` offsets: `ws` are the writer's states, `offsets[i]` what
/// call `i` moved it on (1 for a `step`).
pub proof fn lemma_step_count(ws: Seq<TrlogWriter>, offsets: Seq<u32>)
    requires
        ws.len() == offsets.len() + 1,
        ws[0].current_step() == 0,
        forall|i: int| 0 <= i < offsets.len() ==> ws[i + 1].current_step() == ws[i].current_step() + #[trigger] offsets[i],
    ensures
        ws.last().current_step() == frames(offsets),
    decreases offsets.len(),
{
    if offsets.len() > 0 {
        let n = offsets.len() - 1;
        lemma_step_count(ws.drop_last(), offsets.drop_last());
        assert(ws.drop_last().last() == ws[n]);
        assert(offsets[n] == offsets.last());
    }
}

impl LogWriter for TrlogWriter {
    open spec fn can_skip(&self, offset: u32) -> bool {
        &&& self.wf()
        &&& self.flush_fits(0)
        &&& self.current_step() + offset <= u32::MAX
    }

    open spec fn can_finish(&self) -> bool {
        &&& self.wf()
        &&& self.flush_fits(12)
        &&& self.current_step() < u32::MAX
    }

    /// Frames what waits, counts one more frame if the last one drew
    /// something, then fills in the end of the header: the number of frames,
    /// of entries and of bytes after the header.
    fn finish(&mut self) -> (r: Result<(), LogError>)
        ensures
            r is Ok,
            ({
                let flushed = old(self).content() + flush_bytes(
                    old(self).layer_indices(),
                    old(self).pendings(),
                    (old(self).current_step() - old(self).framed_step()) as u32,
                );
                let last = if all_empty(old(self).pendings()) { old(self).framed_step() } else { old(self).current_step() };
                let steps = if old(self).current_step() == last { old(self).current_step() + 1 } else { old(self).current_step() as int };
                final(self).content() == overwrite(
                    flushed,
                    16,
                    trlog_counts(
                        steps as u32,
                        (old(self).entry_count() + total_entries(old(self).pendings())) as u32,
                        (flushed.len() - 28) as u32,
                    ),
                )
            }),
    {
        self.write_step();
        if self.step == self.last_step {
            self.step = self.step + 1;
        }
        let ghost flushed = self.writer.content();
        let offset = self.writer.offset - 28;
        let back = -(offset as i64) - 12;
        let _ = self.writer.seek(back);
        let step = self.step;
        self.writer.write_u32(step);
        let entry_number = self.writer.entry_number;
        self.writer.write_u32(entry_number);
        self.writer.write_u32(offset);
        let _ = self.writer.seek(offset as i64);
        self.writer.finish();
        proof {
            let s1 = le_u32(step);
            let s2 = le_u32(entry_number);
            let s3 = le_u32(offset);
            lemma_overwrite_concat(flushed, 16, s1, s2);
            lemma_overwrite_concat(flushed, 16, s1 + s2, s3);
            assert(s1 + s2 + s3 =~= trlog_counts(step, entry_number, offset));
        }
        Ok(())
    }

    /// Frames what waits and moves to the next frame.
    fn step(&mut self) -> (r: Result<(), LogError>)
        ensures
            r is Ok,
            final(self).wf(),
            final(self).current_step() == old(self).current_step() + 1,
            final(self).content() == old(self).content() + flush_bytes(
                old(self).layer_indices(),
                old(self).pendings(),
                (old(self).current_step() - old(self).framed_step()) as u32,
            ),
    {
        self.skip(1)
    }

    /// Frames what waits and moves `offset` frames on.
    fn skip(&mut self, offset: u32) -> (r: Result<(), LogError>)
        ensures
            r is Ok,
            final(self).wf(),
            final(self).current_step() == old(self).current_step() + offset,
            final(self).content() == old(self).content() + flush_bytes(
                old(self).layer_indices(),
                old(self).pendings(),
                (old(self).current_step() - old(self).framed_step()) as u32,
            ),
            final(self).layer_indices() == old(self).layer_indices(),
            final(self).framed_step() == if all_empty(old(self).pendings()) {
                old(self).framed_step()
            } else {
                old(self).current_step()
            },
            final(self).entry_count() == old(self).entry_count() + total_entries(old(self).pendings()),
            forall|j: int| 0 <= j < final(self).pendings().len() ==> #[trigger] final(self).pendings()[j] == Seq::<(Seq<u8>, bool)>::empty(),
            final(self).pendings().len() == old(self).pendings().len(),
    {
        self.write_step();
        self.step = self.step + offset;
        Ok(())
    }
}

} // verus!
