//! Bookkeeping of big-file transfers: how many promised bytes of an offered
//! file are still to come, and the sections in which a stored file is sent.
//! The files themselves are opened, written and read by the caller.

use vstd::prelude::*;
use vstd::std_specs::cmp::PartialEqSpecImpl;
use crate::buffer::{buffer_clear, buffer_contents, buffer_extend, buffer_with_capacity};
use crate::messages::Timestamp;

verus! {

/// Why a write to a big file was refused.
#[derive(Clone, Copy, Debug, PartialEq, Eq, Structural)]
pub enum WriteError {
    /// The bytes exceed what is still to come of the promised size.
    PastPromisedSize,
}

/// The state of a big file being received: where it is written, the id of
/// its offer, and how many of the promised bytes are still to come.
#[derive(Debug)]
pub struct BigFileWriter {
    file_path: String,
    id: Timestamp,
    pub bytes_remaining: usize,
}

impl BigFileWriter {
    pub closed spec fn spec_file_path(&self) -> Seq<char> {
        self.file_path@
    }

    pub closed spec fn spec_id(&self) -> Timestamp {
        self.id
    }

    /// How many promised bytes are still to come.
    pub closed spec fn remaining(&self) -> usize {
        self.bytes_remaining
    }

    /// A writer at `path` for the offer with id `time_stamp` and the promised
    /// size of `byte_amount` bytes.
    pub fn new(path: String, time_stamp: Timestamp, byte_amount: usize) -> (w: Self)
        ensures
            w.spec_file_path() == path@,
            w.spec_id() == time_stamp,
            w.remaining() == byte_amount,
    {
        BigFileWriter { file_path: path, id: time_stamp, bytes_remaining: byte_amount }
    }

    /// Counts `bytes` as written when they fit in what is still to come, and
    /// says whether that completed the file, in which case the file is to be
    /// shut down. Writing more than is still to come (anything at all, once the
    /// file is complete) is an error that leaves the writer as it was.
    pub fn write_bytes(&mut self, bytes: &[u8]) -> (res: Result<bool, WriteError>)
        ensures
            final(self).spec_id() == old(self).spec_id(),
            final(self).spec_file_path() == old(self).spec_file_path(),
            bytes@.len() <= old(self).remaining() ==> final(self).remaining() == old(self).remaining()
                - bytes@.len() && res == Ok::<bool, WriteError>(final(self).remaining() == 0),
            bytes@.len() > old(self).remaining() ==> final(self).remaining() == old(self).remaining()
                && res == Err::<bool, WriteError>(WriteError::PastPromisedSize),
    {
        if bytes.len() > self.bytes_remaining {
            Err(WriteError::PastPromisedSize)
        } else {
            self.bytes_remaining = self.bytes_remaining - bytes.len();
            Ok(self.is_done())
        }
    }

    /// Whether all promised bytes have been written.
    pub fn is_done(&self) -> (res: bool)
        ensures
            res == (self.remaining() == 0),
    {
        self.bytes_remaining == 0
    }

    /// How many promised bytes are still to come.
    pub fn bytes_remaining(&self) -> (res: usize)
        ensures
            res == self.remaining(),
    {
        self.bytes_remaining
    }

    /// The id of the offer.
    pub fn id(&self) -> (res: Timestamp)
        ensures
            res == self.spec_id(),
    {
        self.id
    }

    /// Where the file is written.
    pub fn file_path(&self) -> (res: &String)
        ensures
            res@ == self.spec_file_path(),
    {
        &self.file_path
    }
}

/// Two writers are equal when they write the file of the same offer.
impl PartialEq for BigFileWriter {
    fn eq(&self, other: &Self) -> (res: bool) {
        self.id.same(&other.id)
    }
}

impl PartialEqSpecImpl for BigFileWriter {
    open spec fn obeys_eq_spec() -> bool {
        true
    }

    open spec fn eq_spec(&self, other: &BigFileWriter) -> bool {
        self.spec_id() == other.spec_id()
    }
}

impl Eq for BigFileWriter {}


/// How many bytes some chunks hold together.
pub open spec fn chunks_total(chunks: Seq<Seq<u8>>) -> nat
    decreases chunks.len(),
{
    if chunks.len() == 0 {
        0
    } else {
        chunks_total(chunks.drop_last()) + chunks.last().len()
    }
}

/// What is still to come of `remaining` bytes after writing `chunks` one after
/// the other, each write counting its bytes off (see
/// [`BigFileWriter::write_bytes`]).
pub open spec fn remaining_after_writes(remaining: int, chunks: Seq<Seq<u8>>) -> int
    decreases chunks.len(),
{
    if chunks.len() == 0 {
        remaining
    } else {
        remaining_after_writes(remaining, chunks.drop_last()) - chunks.last().len()
    }
}

proof fn lemma_chunks_prefix_total(chunks: Seq<Seq<u8>>, i: int)
    requires
        0 <= i <= chunks.len(),
    ensures
        chunks_total(chunks.take(i)) <= chunks_total(chunks),
    decreases chunks.len(),
{
    if chunks.len() > 0 {
        if i == chunks.len() {
            assert(chunks.take(i) =~= chunks);
            lemma_chunks_prefix_total(chunks.drop_last(), i - 1);
            assert(chunks.drop_last().take(i - 1) =~= chunks.drop_last());
        } else {
            assert(chunks.drop_last().take(i) =~= chunks.take(i));
            lemma_chunks_prefix_total(chunks.drop_last(), i);
        }
    }
}

proof fn lemma_remaining_after_writes(remaining: int, chunks: Seq<Seq<u8>>)
    ensures
        remaining_after_writes(remaining, chunks) == remaining - chunks_total(chunks),
    decreases chunks.len(),
{
    if chunks.len() > 0 {
        lemma_remaining_after_writes(remaining, chunks.drop_last());
    }
}

/// A writer is done exactly when its successive writes add up to the promised
/// size: from a promise of `n` bytes, writes of chunks that hold `k <= n` bytes
/// together each fit in what is still to come, leave `n - k` to come, and leave
/// nothing to come exactly when `k == n`.
pub proof fn lemma_writes_complete(n: nat, chunks: Seq<Seq<u8>>)
    requires
        chunks_total(chunks) <= n,
    ensures
        remaining_after_writes(n as int, chunks) == n - chunks_total(chunks),
        forall|i: int|
            0 <= i < chunks.len() ==> #[trigger] chunks[i].len() <= remaining_after_writes(
                n as int,
                chunks.take(i),
            ),
        (remaining_after_writes(n as int, chunks) == 0) == (chunks_total(chunks) == n),
{
    lemma_remaining_after_writes(n as int, chunks);
    assert forall|i: int| 0 <= i < chunks.len() implies #[trigger] chunks[i].len()
        <= remaining_after_writes(n as int, chunks.take(i)) by {
        lemma_chunks_prefix_total(chunks, i + 1);
        lemma_remaining_after_writes(n as int, chunks.take(i));
        let t = chunks.take(i + 1);
        assert(t.drop_last() =~= chunks.take(i));
        assert(t.last() == chunks[i]);
        assert(chunks_total(t) == chunks_total(chunks.take(i)) + chunks[i].len());
    }
}

/// One call that reads a section: whether the file is finished afterwards,
/// and the section handed out. `filled` is what filling a section of `n` bytes
/// produced. A finished file gives nothing; an empty fill finishes the file
/// and gives nothing; any other fill is handed out, and finishes the file when
/// it is shorter than a whole section (the file ended inside it).
pub open spec fn section_step(finished: bool, filled: Seq<u8>, n: nat) -> (bool, Option<Seq<u8>>) {
    if finished || filled.len() == 0 {
        (true, None)
    } else {
        (filled.len() < n, Some(filled))
    }
}

/// Several calls that read sections, one after the other.
pub open spec fn sections_run(finished: bool, fills: Seq<Seq<u8>>, n: nat) -> (
    bool,
    Seq<Option<Seq<u8>>>,
)
    decreases fills.len(),
{
    if fills.len() == 0 {
        (finished, Seq::empty())
    } else {
        let (f1, out) = section_step(finished, fills[0], n);
        let (f2, outs) = sections_run(f1, fills.drop_first(), n);
        (f2, seq![out] + outs)
    }
}

/// The file `f` cut into sections of `n` bytes, the last one possibly shorter:
/// what successive fills of a section read from it, front to back.
pub open spec fn file_sections(f: Seq<u8>, n: nat) -> Seq<Seq<u8>>
    decreases f.len(),
{
    if n == 0 || f.len() == 0 {
        Seq::empty()
    } else {
        let k = if f.len() < n { f.len() } else { n };
        seq![f.take(k as int)] + file_sections(f.skip(k as int), n)
    }
}

/// Sections put back together.
pub open spec fn joined(sections: Seq<Seq<u8>>) -> Seq<u8>
    decreases sections.len(),
{
    if sections.len() == 0 {
        Seq::empty()
    } else {
        sections[0] + joined(sections.drop_first())
    }
}

/// A file is sent whole, in order, in sections: reading the sections of a
/// file `f` (each fill reading the next `n` bytes, or what is left, and an
/// empty fill at its end) hands out exactly its sections and then nothing,
/// and leaves the file finished. There are `ceil(f.len() / n)` sections; each
/// but the last holds `n` bytes, the last holds at least one, and together
/// they are `f`. For an empty file the first call gives nothing.
pub proof fn lemma_file_sections(f: Seq<u8>, n: nat)
    requires
        n > 0,
    ensures
        ({
            let sections = file_sections(f, n);
            let (finished, outs) = sections_run(false, sections.push(Seq::empty()), n);
            &&& finished
            &&& outs.len() == sections.len() + 1
            &&& forall|i: int| 0 <= i < sections.len() ==> #[trigger] outs[i] == Some(sections[i])
            &&& outs.last() is None
            &&& joined(sections) == f
            &&& forall|i: int|
                0 <= i < sections.len() - 1 ==> (#[trigger] sections[i]).len() == n
            &&& sections.len() > 0 ==> 0 < sections.last().len() <= n
            &&& sections.len() * n >= f.len()
            &&& f.len() > 0 ==> (sections.len() - 1) * n < f.len()
        }),
    decreases f.len(),
{
    let sections = file_sections(f, n);
    let fills = sections.push(Seq::<u8>::empty());
    if f.len() == 0 {
        assert(sections.len() == 0);
        assert(fills =~= seq![Seq::<u8>::empty()]);
        assert(fills.drop_first().len() == 0);
        let (f1, o1) = section_step(false, fills[0], n);
        assert(sections_run(f1, fills.drop_first(), n) == (f1, Seq::<Option<Seq<u8>>>::empty()));
        assert(joined(sections) =~= f);
    } else {
        let k = if f.len() < n { f.len() } else { n };
        let head = f.take(k as int);
        let tail = f.skip(k as int);
        let rest = file_sections(tail, n);
        lemma_file_sections(tail, n);
        assert(sections == seq![head] + rest);
        assert(fills[0] == head);
        assert(fills.drop_first() =~= rest.push(Seq::<u8>::empty()));
        assert(sections.drop_first() =~= rest);
        assert(joined(sections) =~= head + joined(rest));
        assert(head + tail =~= f);
        let (f1, o1) = section_step(false, head, n);
        assert(o1 == Some(head));
        let (fr, outs_rest) = sections_run(false, rest.push(Seq::<u8>::empty()), n);
        if k == n {
            assert(!f1);
            let outs = seq![o1] + outs_rest;
            assert(sections_run(false, fills, n) == (fr, outs));
            assert forall|i: int| 0 <= i < sections.len() implies #[trigger] outs[i] == Some(
                sections[i],
            ) by {
                if i > 0 {
                    assert(outs[i] == outs_rest[i - 1]);
                    assert(sections[i] == rest[i - 1]);
                }
            }
            assert forall|i: int| 0 <= i < sections.len() - 1 implies (
            #[trigger] sections[i]).len() == n by {
                if i > 0 {
                    assert(sections[i] == rest[i - 1]);
                }
            }
            if rest.len() > 0 {
                assert(sections.last() == rest.last());
            }
            assert(sections.len() * n == rest.len() * n + n) by (nonlinear_arith)
                requires
                    sections.len() == rest.len() + 1,
            ;
            if tail.len() == 0 {
                assert(rest.len() == 0);
            } else {
                assert((sections.len() - 1) * n == rest.len() * n);
                assert((rest.len() - 1) * n + n == rest.len() * n) by (nonlinear_arith);
            }
        } else {
            assert(k == f.len() && f.len() < n);
            assert(tail.len() == 0);
            assert(rest.len() == 0);
            assert(f1);
            let later = rest.push(Seq::<u8>::empty());
            assert(later =~= seq![Seq::<u8>::empty()]);
            let (f2, o2) = section_step(true, later[0], n);
            assert(later.drop_first().len() == 0);
            assert(sections_run(f2, later.drop_first(), n) == (f2, Seq::<Option<Seq<u8>>>::empty()));
            assert(sections_run(f1, later, n) == (true, seq![Option::<Seq<u8>>::None]));
            assert(sections_run(false, fills, n) == (true, seq![o1] + seq![Option::<Seq<u8>>::None]));
            assert(sections.len() == 1);
            assert(sections.last() == head);
            assert(1 * n >= f.len());
            assert(0 * n == 0);
        }
    }
}

/// The reading side of a stored big file: the buffer of the section read
/// last, at most `SECTION_SIZE` bytes, and whether the file is finished.
#[derive(Debug)]
pub struct FileReader<const SECTION_SIZE: usize> {
    buf: bytes::BytesMut,
    finished: bool,
}

impl<const SECTION_SIZE: usize> FileReader<SECTION_SIZE> {
    /// The bytes of the section read last.
    pub closed spec fn section(&self) -> Seq<u8> {
        buffer_contents(self.buf)
    }

    /// Whether the end of the file has been reached.
    pub closed spec fn is_finished(&self) -> bool {
        self.finished
    }

    /// A reader with an empty section buffer, for a file the caller has opened.
    pub fn open() -> (r: Self)
        requires
            SECTION_SIZE <= isize::MAX,
        ensures
            r.section() == Seq::<u8>::empty(),
            !r.is_finished(),
    {
        FileReader { buf: buffer_with_capacity(SECTION_SIZE), finished: false }
    }

    /// Takes the next section of the file, the bytes that filling a section
    /// produced (all `SECTION_SIZE` of them, or fewer where the file ended),
    /// and hands it out; nothing when the file is finished (see
    /// [`section_step`]). Once a section shorter than `SECTION_SIZE` (or
    /// nothing) has come, the file is finished and every later call gives
    /// nothing.
    pub fn read_section(&mut self, filled: &[u8]) -> (res: Option<Vec<u8>>)
        requires
            filled@.len() <= SECTION_SIZE <= isize::MAX,
        ensures
            ({
                let (finished, out) = section_step(
                    old(self).is_finished(),
                    filled@,
                    SECTION_SIZE as nat,
                );
                &&& final(self).is_finished() == finished
                &&& match res {
                    Some(s) => out == Some(s@),
                    None => out is None,
                }
            }),
            !old(self).is_finished() ==> final(self).section() == filled@,
            old(self).is_finished() ==> final(self).section() == old(self).section(),
    {
        if self.finished {
            return None;
        }
        buffer_clear(&mut self.buf);
        buffer_extend(&mut self.buf, filled);
        if filled.len() == 0 {
            self.finished = true;
            None
        } else {
            self.finished = filled.len() < SECTION_SIZE;
            Some(vstd::slice::slice_to_vec(filled))
        }
    }
}

} // verus!
