//! The reassembler: joins the deflate blocks of the row groups, in order,
//! into one zlib stream and hands it to the chunk writer.

use vstd::prelude::*;
use crate::checksum::{adler32_combine, adler32_combined};
use crate::error::{internal, Error, ErrorKind};
use crate::group::CompressedGroup;
use crate::options::CompressionLevel;
use crate::writer::{be32, chunk_bytes, chunked, tag_idat, tag_iend, write_be32, Writer};
use crate::zlib::{final_block, final_block_bytes, zlib_header, zlib_header_bytes};

verus! {

/// The most data bytes that the reassembler puts into one chunk.
pub const IDAT_LIMIT: usize = 0x7fff_ffff;

/// What every failure of a worker, and every call after it, reports.
pub open spec fn worker_failure() -> &'static str {
    "A worker failed to encode its rows"
}

/// The state of a reassembly, as a value.
pub struct Assembly {
    /// The level that the zlib header names.
    pub level: CompressionLevel,
    /// The size above which pending bytes are written out when streaming.
    pub chunk_size: usize,
    pub streaming: bool,
    /// The index of the group that is to come next.
    pub next: int,
    /// The checksum of the filtered bytes of all groups so far.
    pub adler: u32,
    /// Stream bytes that wait to be written.
    pub pending: Seq<u8>,
    /// Stream bytes that were written as chunk data.
    pub flushed: Seq<u8>,
    /// Groups that came before their turn, in the order in which they
    /// came.
    pub waiting: Seq<CompressedGroup>,
}

/// The deflate blocks that a group carries; none if its worker failed.
pub open spec fn blocks_of(group: CompressedGroup) -> Seq<u8> {
    match group.data {
        Some(bytes) => bytes@,
        None => Seq::<u8>::empty(),
    }
}

/// The place of the first of the groups that has the given index, if one
/// of them has it.
pub open spec fn place_of(groups: Seq<CompressedGroup>, index: int) -> Option<int>
    decreases groups.len(),
{
    if groups.len() == 0 {
        None
    } else {
        match place_of(groups.drop_last(), index) {
            Some(k) => Some(k),
            None => if groups.last().index == index {
                Some(groups.len() - 1)
            } else {
                None
            },
        }
    }
}

/// The place that `place_of` gives holds a group with the index asked
/// for, and no group before it has that index.
pub proof fn lemma_place_of(groups: Seq<CompressedGroup>, index: int)
    ensures
        place_of(groups, index) matches Some(k) ==> 0 <= k < groups.len() && groups[k].index
            == index && forall|j: int| 0 <= j < k ==> (#[trigger] groups[j]).index != index,
        place_of(groups, index) is None ==> forall|j: int|
            0 <= j < groups.len() ==> (#[trigger] groups[j]).index != index,
    decreases groups.len(),
{
    if groups.len() > 0 {
        let shorter = groups.drop_last();
        lemma_place_of(shorter, index);
        assert forall|j: int| 0 <= j < shorter.len() implies shorter[j] == groups[j] by {}
        match place_of(shorter, index) {
            Some(k) => {
                assert forall|j: int| 0 <= j < k implies (#[trigger] groups[j]).index
                    != index by {
                    assert(shorter[j].index != index);
                }
            },
            None => {
                assert forall|j: int| 0 <= j < shorter.len() implies (#[trigger] groups[j]).index
                    != index by {
                    assert(shorter[j].index != index);
                }
            },
        }
    }
}

/// The first group with the index asked for is at the place where it is
/// found when the groups are gone through from the front.
pub proof fn lemma_place_found(groups: Seq<CompressedGroup>, index: int, k: int)
    requires
        0 <= k < groups.len(),
        groups[k].index == index,
        forall|j: int| 0 <= j < k ==> (#[trigger] groups[j]).index != index,
    ensures
        place_of(groups, index) == Some(k),
{
    lemma_place_of(groups, index);
    match place_of(groups, index) {
        Some(found) => {
            if found < k {
                assert(groups[found].index != index);
            }
        },
        None => {
            assert(groups[k].index != index);
        },
    }
}

impl Assembly {
    /// The state before the first group.
    pub open spec fn start(
        level: CompressionLevel,
        chunk_size: usize,
        streaming: bool,
    ) -> Assembly {
        Assembly {
            level,
            chunk_size,
            streaming,
            next: 0,
            adler: 1,
            pending: Seq::<u8>::empty(),
            flushed: Seq::<u8>::empty(),
            waiting: Seq::<CompressedGroup>::empty(),
        }
    }

    /// The zlib header if no group has come yet, else nothing.
    pub open spec fn opening(self) -> Seq<u8> {
        if self.next == 0 {
            zlib_header(self.level)
        } else {
            Seq::<u8>::empty()
        }
    }

    /// The pending bytes once the blocks `data` of the next group are
    /// added, led by the zlib header if the group is the first.
    pub open spec fn joined(self, data: Seq<u8>) -> Seq<u8> {
        self.pending + self.opening() + data
    }

    /// Whether adding `data` makes the pending bytes go out: only when
    /// streaming, and only if they then exceed the chunk size.
    pub open spec fn flushes(self, data: Seq<u8>) -> bool {
        self.streaming && self.joined(data).len() > self.chunk_size
    }

    /// The state after the next group, with checksum `adler` over
    /// `filtered_len` filtered bytes and deflate blocks `data`.
    pub open spec fn step(self, adler: u32, filtered_len: nat, data: Seq<u8>) -> Assembly {
        Assembly {
            next: self.next + 1,
            adler: adler32_combined(self.adler, adler, filtered_len),
            pending: if self.flushes(data) {
                Seq::<u8>::empty()
            } else {
                self.joined(data)
            },
            flushed: if self.flushes(data) {
                self.flushed + self.joined(data)
            } else {
                self.flushed
            },
            ..self
        }
    }

    /// What goes to the sink when the next group has blocks `data`.
    pub open spec fn step_output(self, data: Seq<u8>) -> Seq<u8> {
        if self.flushes(data) {
            chunked(tag_idat(), self.joined(data), IDAT_LIMIT as int)
        } else {
            Seq::<u8>::empty()
        }
    }

    /// Whether the state is sound: every group that waits carries data,
    /// and its index is not the largest that 32 bits hold.
    pub open spec fn sound(self) -> bool {
        forall|k: int|
            0 <= k < self.waiting.len() ==> (#[trigger] self.waiting[k]).data is Some
                && self.waiting[k].index < u32::MAX
    }

    /// Whether a group can be taken in: it carries data, its turn has not
    /// passed, it is not the last group that can be counted, and no group
    /// with its index waits already.
    pub open spec fn admits(self, group: CompressedGroup) -> bool {
        &&& group.data is Some
        &&& self.next <= group.index < u32::MAX
        &&& place_of(self.waiting, group.index as int) is None
    }

    /// This state with one more group waiting.
    pub open spec fn held(self, group: CompressedGroup) -> Assembly {
        Assembly { waiting: self.waiting.push(group), ..self }
    }

    /// This state once the group at place `k` of those waiting has had
    /// its turn.
    pub open spec fn after_turn(self, k: int) -> Assembly {
        let group = self.waiting[k];
        Assembly {
            waiting: self.waiting.remove(k),
            ..self.step(group.adler, group.filtered_len as nat, blocks_of(group))
        }
    }

    /// The state once every waiting group whose turn has come has had it:
    /// as long as the group that is to come next waits, it is taken.
    pub open spec fn settled(self) -> Assembly
        decreases self.waiting.len(),
    {
        match place_of(self.waiting, self.next) {
            Some(k) => if 0 <= k < self.waiting.len() {
                self.after_turn(k).settled()
            } else {
                self
            },
            None => self,
        }
    }

    /// What goes to the sink while the waiting groups whose turn has come
    /// have it.
    pub open spec fn settled_output(self) -> Seq<u8>
        decreases self.waiting.len(),
    {
        match place_of(self.waiting, self.next) {
            Some(k) => if 0 <= k < self.waiting.len() {
                self.step_output(blocks_of(self.waiting[k])) + self.after_turn(k).settled_output()
            } else {
                Seq::<u8>::empty()
            },
            None => Seq::<u8>::empty(),
        }
    }

    /// A group that comes in its turn while none waits is taken at once,
    /// and none waits after it.
    pub proof fn lemma_in_turn(self, group: CompressedGroup)
        requires
            self.waiting.len() == 0,
            group.index == self.next,
        ensures
            self.held(group).settled() == self.step(
                group.adler,
                group.filtered_len as nat,
                blocks_of(group),
            ),
            self.held(group).settled_output() == self.step_output(blocks_of(group)),
    {
        let held = self.held(group);
        assert(held.waiting.len() == 1);
        assert(held.waiting[0] == group);
        lemma_place_found(held.waiting, self.next, 0);
        let after = held.after_turn(0);
        assert(after.waiting =~= Seq::<CompressedGroup>::empty());
        assert(self.waiting =~= Seq::<CompressedGroup>::empty());
        assert(after == self.step(group.adler, group.filtered_len as nat, blocks_of(group)));
        assert(place_of(after.waiting, after.next) is None);
        assert(after.settled() == after);
        assert(after.settled_output() == Seq::<u8>::empty());
        assert(self.step_output(blocks_of(group)) + Seq::<u8>::empty() =~= self.step_output(
            blocks_of(group),
        ));
    }

    /// The pending bytes closed by the block that ends the deflate stream.
    pub open spec fn tail(self) -> Seq<u8> {
        self.pending + self.opening() + final_block()
    }

    /// What goes to the sink at the end. Streaming, the tail goes out as
    /// image data and the checksum in a chunk of its own; otherwise tail
    /// and checksum go out together. The end chunk follows.
    pub open spec fn finish_output(self) -> Seq<u8> {
        let data = if self.streaming {
            chunked(tag_idat(), self.tail(), IDAT_LIMIT as int) + chunk_bytes(
                tag_idat(),
                be32(self.adler),
            )
        } else {
            chunked(tag_idat(), self.tail() + be32(self.adler), IDAT_LIMIT as int)
        };
        data + chunk_bytes(tag_iend(), Seq::<u8>::empty())
    }

    /// The zlib stream so far: what was written and what waits.
    pub open spec fn stream(self) -> Seq<u8> {
        self.flushed + self.pending
    }

    /// The whole zlib stream once the reassembly is finished in this
    /// state.
    pub open spec fn finished_stream(self) -> Seq<u8> {
        self.flushed + self.tail() + be32(self.adler)
    }

    /// A group adds to the stream its blocks, behind the zlib header if it
    /// is the first, whether or not the pending bytes go out.
    pub proof fn lemma_step_stream(self, adler: u32, filtered_len: nat, data: Seq<u8>)
        ensures
            self.step(adler, filtered_len, data).stream() == self.stream() + self.opening() + data,
    {
        let after = self.step(adler, filtered_len, data);
        if self.flushes(data) {
            assert(after.stream() =~= self.flushed + self.joined(data));
        } else {
            assert(after.stream() =~= self.flushed + self.joined(data));
        }
        assert(self.flushed + self.joined(data) =~= self.stream() + self.opening() + data);
    }

    /// Finishing adds to the stream the zlib header if no group came, the
    /// block that ends the deflate stream, and the checksum.
    pub proof fn lemma_finished_stream(self)
        ensures
            self.finished_stream() == self.stream() + self.opening() + final_block() + be32(
                self.adler,
            ),
    {
        assert(self.finished_stream() =~= self.stream() + self.opening() + final_block() + be32(
            self.adler,
        ));
    }
}

/// Takes the compressed row groups as they come and joins them in the
/// order of their indices: a group that comes before its turn waits.
pub struct Reassembler {
    level: CompressionLevel,
    chunk_size: usize,
    streaming: bool,
    next: u32,
    adler: u32,
    pending: Vec<u8>,
    flushed: Ghost<Seq<u8>>,
    waiting: Vec<CompressedGroup>,
}

impl View for Reassembler {
    type V = Assembly;

    closed spec fn view(&self) -> Assembly {
        Assembly {
            level: self.level,
            chunk_size: self.chunk_size,
            streaming: self.streaming,
            next: self.next as int,
            adler: self.adler,
            pending: self.pending@,
            flushed: self.flushed@,
            waiting: self.waiting@,
        }
    }
}

impl Reassembler {
    /// A reassembler that has seen no group.
    pub fn new(level: CompressionLevel, chunk_size: usize, streaming: bool) -> (r: Reassembler)
        ensures
            r@ == Assembly::start(level, chunk_size, streaming),
            r@.sound(),
    {
        Reassembler {
            level,
            chunk_size,
            streaming,
            next: 0,
            adler: 1,
            pending: Vec::new(),
            flushed: Ghost(Seq::<u8>::empty()),
            waiting: Vec::new(),
        }
    }

    /// The index of the group that is to come next.
    pub fn next_index(&self) -> (n: u32)
        ensures
            n == self@.next,
    {
        self.next
    }

    /// The checksum of the filtered bytes of all groups so far.
    pub fn checksum(&self) -> (a: u32)
        ensures
            a == self@.adler,
    {
        self.adler
    }

    /// The number of groups that wait for their turn.
    pub fn waiting_count(&self) -> (n: usize)
        ensures
            n == self@.waiting.len(),
    {
        self.waiting.len()
    }

    /// The place among the waiting groups of the first with this index.
    fn find(&self, index: u32) -> (r: Option<usize>)
        ensures
            r is Some ==> place_of(self@.waiting, index as int) == Some(r->Some_0 as int),
            r is None ==> place_of(self@.waiting, index as int) is None,
    {
        let mut k: usize = 0;
        while k < self.waiting.len()
            invariant
                k <= self.waiting@.len(),
                forall|j: int| 0 <= j < k ==> (#[trigger] self.waiting@[j]).index != index,
            decreases self.waiting@.len() - k,
        {
            if self.waiting[k].index == index {
                proof {
                    lemma_place_found(self.waiting@, index as int, k as int);
                }
                return Some(k);
            }
            k += 1;
        }
        proof {
            lemma_place_of(self.waiting@, index as int);
        }
        None
    }

    /// Takes the group whose turn it is: adds its blocks to the pending
    /// bytes, behind the zlib header if it is the first, joins its checksum
    /// to the running one and, when streaming, writes the pending bytes
    /// out as image data once they exceed the chunk size.
    fn take(&mut self, group: &CompressedGroup, writer: &mut Writer)
        requires
            group.index == old(self)@.next,
            group.index < u32::MAX,
            group.data is Some,
        ensures
            final(self)@ == old(self)@.step(
                group.adler,
                group.filtered_len as nat,
                blocks_of(*group),
            ),
            final(writer)@ == old(writer)@ + old(self)@.step_output(blocks_of(*group)),
    {
        let ghost before = self@;
        let ghost sink = writer@;
        match &group.data {
            None => {},
            Some(data) => {
                if self.next == 0 {
                    let header: [u8; 2] = zlib_header_bytes(self.level);
                    self.pending.extend_from_slice(header.as_slice());
                }
                self.pending.extend_from_slice(data.as_slice());
                assert(self.pending@ =~= before.joined(data@));
                self.adler = adler32_combine(self.adler, group.adler, group.filtered_len);
                self.next = self.next + 1;
                if self.streaming && self.pending.len() > self.chunk_size {
                    let tag: [u8; 4] = [73u8, 68u8, 65u8, 84u8];
                    assert(tag@ =~= tag_idat());
                    let written = writer.write_split(
                        tag.as_slice(),
                        self.pending.as_slice(),
                        IDAT_LIMIT,
                    );
                    proof {
                        self.flushed@ = self.flushed@ + self.pending@;
                    }
                    self.pending = Vec::new();
                } else {
                    assert(writer@ =~= sink + Seq::<u8>::empty());
                }
            },
        }
    }

    /// Takes a group in. If its turn has come it is joined to the stream,
    /// and after it every waiting group whose turn has come with that; if
    /// not, it waits.
    ///
    /// A group is refused, and nothing changes, if it carries no data, if
    /// its turn has passed, if a group with its index waits already, or if
    /// its index is the largest that 32 bits hold.
    pub fn submit(&mut self, group: CompressedGroup, writer: &mut Writer) -> (r: Result<(), Error>)
        requires
            old(self)@.sound(),
        ensures
            final(self)@.sound(),
            old(self)@.admits(group) ==> r is Ok && final(self)@ == old(self)@.held(
                group,
            ).settled() && final(writer)@ == old(writer)@ + old(self)@.held(
                group,
            ).settled_output(),
            !old(self)@.admits(group) ==> r is Err && r->Err_0.has(
                ErrorKind::Internal,
                worker_failure(),
            ) && final(self)@ == old(self)@ && final(writer)@ == old(writer)@,
    {
        if group.data.is_none() || group.index < self.next || group.index == u32::MAX {
            return Err(internal("A worker failed to encode its rows"));
        }
        if self.find(group.index).is_some() {
            return Err(internal("A worker failed to encode its rows"));
        }
        let ghost held = self.waiting@;
        self.waiting.push(group);
        assert(self@.sound()) by {
            assert forall|k: int| 0 <= k < self.waiting@.len() implies (
            #[trigger] self.waiting@[k]).data is Some && self.waiting@[k].index < u32::MAX by {
                if k < held.len() {
                    assert(self.waiting@[k] == held[k]);
                }
            }
        }
        let ghost target = self@.settled();
        let ghost output = self@.settled_output();
        let ghost sink = writer@;
        let mut more: bool = true;
        assert(sink + output =~= sink + output);
        while more
            invariant
                self@.sound(),
                self@.settled() == target,
                writer@ + self@.settled_output() == sink + output,
                !more ==> place_of(self@.waiting, self@.next) is None,
            decreases self.waiting@.len(), (if more { 1int } else { 0int }),
        {
            match self.find(self.next) {
                None => {
                    more = false;
                },
                Some(k) => {
                    let ghost before = self@;
                    let ghost written = writer@;
                    proof {
                        lemma_place_of(self.waiting@, self.next as int);
                    }
                    let next: CompressedGroup = self.waiting.remove(k);
                    self.take(&next, writer);
                    proof {
                        let rest = self.waiting@;
                        assert forall|j: int| 0 <= j < rest.len() implies (#[trigger] rest[j]).data
                            is Some && rest[j].index < u32::MAX by {
                            if j < k {
                                assert(rest[j] == before.waiting[j]);
                            } else {
                                assert(rest[j] == before.waiting[j + 1]);
                            }
                        }
                        assert(self@ == before.after_turn(k as int));
                        let step = before.step_output(blocks_of(next));
                        assert(before.settled_output() == step + self@.settled_output());
                        assert((written + step) + self@.settled_output() =~= written + (step
                            + self@.settled_output()));
                    }
                },
            }
        }
        assert(self@.settled_output() == Seq::<u8>::empty());
        assert(writer@ + Seq::<u8>::empty() =~= writer@);
        Ok(())
    }

    /// Ends the stream: closes the pending bytes with the last deflate
    /// block, writes them and the checksum as image data, and writes the
    /// end chunk. Returns the checksum.
    ///
    /// Fails, and writes nothing, if a group still waits for its turn: a
    /// group before it never came.
    pub fn finish(self, writer: &mut Writer) -> (r: Result<u32, Error>)
        ensures
            self@.waiting.len() == 0 ==> r == Ok::<u32, Error>(self@.adler) && final(writer)@
                == old(writer)@ + self@.finish_output(),
            self@.waiting.len() != 0 ==> r is Err && r->Err_0.has(
                ErrorKind::Internal,
                worker_failure(),
            ) && final(writer)@ == old(writer)@,
    {
        let mut this = self;
        if this.waiting.len() != 0 {
            return Err(internal("A worker failed to encode its rows"));
        }
        let ghost before = this@;
        let ghost sink = writer@;
        if this.next == 0 {
            let header: [u8; 2] = zlib_header_bytes(this.level);
            this.pending.extend_from_slice(header.as_slice());
        }
        let last: [u8; 5] = final_block_bytes();
        this.pending.extend_from_slice(last.as_slice());
        assert(this.pending@ =~= before.tail());
        let tag: [u8; 4] = [73u8, 68u8, 65u8, 84u8];
        assert(tag@ =~= tag_idat());
        if this.streaming {
            let written = writer.write_split(tag.as_slice(), this.pending.as_slice(), IDAT_LIMIT);
            let mut sum: Vec<u8> = Vec::new();
            write_be32(&mut sum, this.adler);
            assert(sum@ =~= be32(this.adler));
            let written = writer.write_chunk(tag.as_slice(), sum.as_slice());
        } else {
            write_be32(&mut this.pending, this.adler);
            let written = writer.write_split(tag.as_slice(), this.pending.as_slice(), IDAT_LIMIT);
        }
        let written = writer.write_end();
        assert(writer@ =~= sink + before.finish_output());
        Ok(this.adler)
    }
}

} // verus!
