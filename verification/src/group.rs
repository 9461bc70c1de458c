//! Row groups, the units of parallel work, and what a worker makes of one.

use vstd::prelude::*;
use rayon::iter::IntoParallelRefIterator;
use rayon::iter::ParallelIterator;
use crate::checksum::{adler32, adler32_of};
use crate::plan::{filter_block, filtered_block, Plan};
use crate::zlib::{deflate_blocks, deflate_sync};

verus! {

/// A run of whole rows, with the row that stands above its first.
#[derive(Debug)]
pub struct RowGroup {
    /// The place of the group among the groups of its image, from 0.
    pub index: u32,
    /// The number of rows.
    pub count: usize,
    /// The last row of the group before, or zeros for the first group.
    pub above: Vec<u8>,
    /// The pixel bytes of the rows.
    pub rows: Vec<u8>,
}

/// What a worker hands back for a row group.
#[derive(Debug)]
pub struct CompressedGroup {
    /// The index of the row group.
    pub index: u32,
    /// The number of bytes that went into the compressor.
    pub filtered_len: u64,
    /// The Adler-32 checksum of those bytes alone.
    pub adler: u32,
    /// The deflate blocks that came out; `None` if the compressor failed.
    pub data: Option<Vec<u8>>,
}

/// The bytes of data that may be missing.
pub open spec fn view_of(data: Option<Vec<u8>>) -> Option<Seq<u8>> {
    match data {
        Some(bytes) => Some(bytes@),
        None => None,
    }
}

impl RowGroup {
    /// Whether the group holds whole rows of the plan's length.
    pub open spec fn wf(&self, plan: Plan) -> bool {
        &&& self.above@.len() == plan.stride
        &&& self.rows@.len() == self.count * plan.stride
    }

    /// The bytes that go into the compressor for this group.
    pub open spec fn filtered(&self, plan: Plan) -> Seq<u8> {
        filtered_block(
            plan.filter_mode,
            plan.bpp as int,
            plan.stride as int,
            self.above@,
            self.rows@,
            self.count as nat,
        )
    }
}

impl CompressedGroup {
    /// Whether this is what `job` is to become under `plan`: the job's
    /// index, the length and checksum of its filtered bytes, and what the
    /// compressor makes of them: their deflate blocks, or nothing where it
    /// gives up.
    pub open spec fn encodes(&self, plan: Plan, job: &RowGroup) -> bool {
        &&& self.index == job.index
        &&& self.filtered_len == job.filtered(plan).len()
        &&& self.adler == adler32(job.filtered(plan))
        &&& view_of(self.data) == deflate_blocks(
            job.filtered(plan),
            plan.level.number(),
            plan.strategy.code(),
        )
    }
}

/// The work on one row group: filter the rows, take the checksum of the
/// filtered bytes, and compress them from a fresh coder state.
pub fn encode_group(plan: &Plan, job: &RowGroup) -> (out: CompressedGroup)
    requires
        plan.wf(),
        job.wf(*plan),
    ensures
        out.encodes(*plan, job),
{
    let filtered: Vec<u8> = filter_block(
        plan,
        job.above.as_slice(),
        job.rows.as_slice(),
        job.count,
    );
    let adler: u32 = adler32_of(filtered.as_slice());
    let data: Option<Vec<u8>> = deflate_sync(
        filtered.as_slice(),
        plan.level.to_u8(),
        plan.strategy.to_u8(),
    );
    CompressedGroup { index: job.index, filtered_len: filtered.len() as u64, adler, data }
}

/// Encodes the row groups one after another on the calling thread.
pub fn encode_groups(plan: &Plan, jobs: &Vec<RowGroup>) -> (out: Vec<CompressedGroup>)
    requires
        plan.wf(),
        forall|i: int| 0 <= i < jobs@.len() ==> (#[trigger] jobs@[i]).wf(*plan),
    ensures
        out@.len() == jobs@.len(),
        forall|i: int| 0 <= i < jobs@.len() ==> (#[trigger] out@[i]).encodes(*plan, &jobs@[i]),
{
    let mut out: Vec<CompressedGroup> = Vec::new();
    let mut i: usize = 0;
    while i < jobs.len()
        invariant
            plan.wf(),
            i <= jobs@.len(),
            out@.len() == i,
            forall|k: int| 0 <= k < jobs@.len() ==> (#[trigger] jobs@[k]).wf(*plan),
            forall|k: int| 0 <= k < i ==> (#[trigger] out@[k]).encodes(*plan, &jobs@[k]),
        decreases jobs@.len() - i,
    {
        let done: CompressedGroup = encode_group(plan, &jobs[i]);
        out.push(done);
        i += 1;
    }
    out
}

/// Encodes the row groups on the threads of `pool`.
///
/// Runs, inside `ThreadPool::install`, rayon's `par_iter` over the jobs
/// with `map` to `encode_group` and `collect` into a vector. Rayon
/// collects the results of an indexed parallel iterator in the order of
/// its items, whichever thread finished first, so the result at each
/// place is what `encode_group` returns for the job at that place.
#[verifier::external_body]
pub(crate) fn encode_groups_on(pool: &rayon::ThreadPool, plan: &Plan, jobs: &Vec<RowGroup>) -> (out:
    Vec<CompressedGroup>)
    requires
        plan.wf(),
        forall|i: int| 0 <= i < jobs@.len() ==> (#[trigger] jobs@[i]).wf(*plan),
    ensures
        out@.len() == jobs@.len(),
        forall|i: int| 0 <= i < jobs@.len() ==> (#[trigger] out@[i]).encodes(*plan, &jobs@[i]),
{
    pool.install(|| jobs.par_iter().map(|job| encode_group(plan, job)).collect())
}

/// The number of threads in `pool`, as `ThreadPool::current_num_threads`
/// reports it.
#[verifier::external_body]
pub(crate) fn worker_count(pool: &rayon::ThreadPool) -> (n: usize) {
    pool.current_num_threads()
}

} // verus!
