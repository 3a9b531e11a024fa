//! The index of a pack and the traversal that starts from it.

use vstd::prelude::*;
use crate::forest::{
    dangling, first_dangling, lemma_level_bound, level_of, offsets_ascending, shape_of, Forest,
};
use crate::outcome::{statistics, statistics_fit, try_digest_statistics, Outcome};
use crate::pack::{checksum_matches, is_pack_verdict, verify_pack_checksum};
use crate::resolve::{contents_of, Job, Resolver};
use crate::types::{Error, IndexEntry, ObjectId, PackEntry, SafetyCheck};

verus! {

/// Number of objects up to which a pack is resolved by one worker.
pub const SINGLE_WORKER_LIMIT: usize = 10_000;

/// The number of workers to resolve a pack with.
pub open spec fn workers_for(thread_limit: Option<usize>, available: usize, num_objects: usize) -> usize {
    if num_objects <= SINGLE_WORKER_LIMIT {
        1
    } else {
        let wanted = match thread_limit {
            Some(limit) => if limit == 0 {
                available
            } else {
                limit
            },
            None => available,
        };
        if wanted == 0 {
            1
        } else {
            wanted
        }
    }
}

/// Decides how many workers resolve a pack of `num_objects` objects: one
/// for a small pack; else as many as `thread_limit` says, where no limit and
/// a limit of zero both stand for all `available` ones; and never none.
pub fn worker_count(thread_limit: Option<usize>, available: usize, num_objects: usize) -> (workers:
    usize)
    ensures
        workers == workers_for(thread_limit, available, num_objects),
        workers >= 1,
{
    if num_objects <= SINGLE_WORKER_LIMIT {
        return 1;
    }
    let wanted = match thread_limit {
        Some(0) | None => available,
        Some(limit) => limit,
    };
    if wanted == 0 {
        1
    } else {
        wanted
    }
}

/// What the pack holds for the traversal: its bytes, and for every entry,
/// in ascending order of offset, its header and its decoded object.
#[derive(Debug)]
pub struct Pack {
    /// Every byte of the pack, from its header to its trailing checksum.
    pub data: Vec<u8>,
    pub entries: Vec<PackEntry>,
    /// `None` where the object could not be decoded.
    pub objects: Vec<Option<Vec<u8>>>,
}

/// The index of a pack.
#[derive(Debug)]
pub struct File {
    /// One entry for every object, in strictly ascending order of offset.
    pub entries: Vec<IndexEntry>,
}

/// The traversal of a pack by its index, as a mathematical object.
pub open spec fn job_of(check: SafetyCheck, entries: Seq<IndexEntry>, pack: Pack) -> Job {
    Job {
        check,
        entries,
        pack_entries: pack.entries@,
        data: pack.data@,
        objects: contents_of(pack.objects@),
        shape: shape_of(entries, pack.entries@),
    }
}

/// Whether the level of every entry fits the field that records it.
pub open spec fn levels_fit(entries: Seq<IndexEntry>, pack_entries: Seq<PackEntry>) -> bool {
    forall|i: int| 0 <= i < entries.len() ==> level_of(entries, pack_entries, i) <= u16::MAX
}

/// Whether some delta of the pack has no earlier entry as its base.
pub open spec fn has_dangling(entries: Seq<IndexEntry>, pack_entries: Seq<PackEntry>) -> bool {
    exists|i: int| 0 <= i < entries.len() && dangling(entries, pack_entries, i)
}

/// Whether `res` is what traversing the pack gives. The pack's checksum is
/// verified first, the forest is built next, and the objects are resolved
/// last: the first of the three to fail gives the error. Else the result is
/// the pack's id, the statistics of the objects that passed, and the errors
/// that the policy tolerated.
pub open spec fn is_traversal_result(
    check: SafetyCheck,
    entries: Seq<IndexEntry>,
    pack: Pack,
    res: Result<(ObjectId, Outcome, Vec<Error>), Error>,
) -> bool {
    let end = job_of(check, entries, pack).outcome();
    match res {
        Ok((id, outcome, skipped)) => {
            &&& is_pack_verdict(pack.data@, Ok(id))
            &&& !has_dangling(entries, pack.entries@)
            &&& end.failed is None
            &&& outcome@ == statistics(end.items, pack.data@.len() as u64)
            &&& skipped@ == end.skipped
        },
        Err(error) => if !checksum_matches(pack.data@) {
            is_pack_verdict(pack.data@, Err(error))
        } else if has_dangling(entries, pack.entries@) {
            exists|i: int|
                first_dangling(entries, pack.entries@, i) && error == (Error::DanglingDeltaBase {
                    pack_offset: entries[i].pack_offset,
                })
        } else {
            end.failed == Some(error)
        },
    }
}

/// Whether some number of the traversal is too large for the field that
/// records it: the level of a node, or, where the traversal does not fail,
/// one of its statistics.
pub open spec fn exceeds_limits(check: SafetyCheck, entries: Seq<IndexEntry>, pack: Pack) -> bool {
    let end = job_of(check, entries, pack).outcome();
    !levels_fit(entries, pack.entries@) || (end.failed is None && !statistics_fit(end.items))
}

impl File {
    /// Whether the entries are in strictly ascending order of pack offset.
    pub fn is_sorted(&self) -> (sorted: bool)
        ensures
            sorted == offsets_ascending(self.entries@),
    {
        let mut i: usize = 1;
        while i < self.entries.len()
            invariant
                1 <= i,
                forall|k: int|
                    0 < k < i && k < self.entries@.len() ==> self.entries@[k - 1].pack_offset < (
                    #[trigger] self.entries@[k]).pack_offset,
            decreases self.entries.len() - i,
        {
            if self.entries[i - 1].pack_offset >= self.entries[i].pack_offset {
                return false;
            }
            i += 1;
        }
        proof {
            lemma_steps_ascend(self.entries@);
        }
        true
    }

    /// Traverses the pack that this index describes, as
    /// [`File::traverse_with_index`] does, and gives `None` where the pack
    /// passes its checksum and has a forest but a number of the traversal
    /// does not fit its field.
    pub fn try_traverse_with_index(&self, check: SafetyCheck, pack: &Pack) -> (res: Option<
        Result<(ObjectId, Outcome, Vec<Error>), Error>,
    >)
        requires
            pack.entries@.len() == self.entries@.len(),
            pack.objects@.len() == self.entries@.len(),
            offsets_ascending(self.entries@),
        ensures
            res is None <==> checksum_matches(pack.data@) && !has_dangling(
                self.entries@,
                pack.entries@,
            ) && exceeds_limits(check, self.entries@, *pack),
            res matches Some(found) ==> is_traversal_result(check, self.entries@, *pack, found),
    {
        let id = match verify_pack_checksum(pack.data.as_slice()) {
            Ok(id) => id,
            Err(error) => {
                return Some(Err(error));
            },
        };
        let forest = match Forest::from_offsets_in_pack(
            self.entries.as_slice(),
            pack.entries.as_slice(),
        ) {
            Ok(forest) => forest,
            Err(error) => {
                return Some(Err(error));
            },
        };
        proof {
            assert forall|i: int| 0 <= i < self.entries@.len() implies (
            #[trigger] forest@.nodes[i]).level == level_of(self.entries@, pack.entries@, i) by {
                lemma_level_bound(self.entries@, pack.entries@, i);
            }
        }
        if !forest.levels_fit() {
            return None;
        }
        proof {
            assert forall|i: int| 0 <= i < self.entries@.len() implies level_of(
                self.entries@,
                pack.entries@,
                i,
            ) <= u16::MAX by {
                assert(forest@.nodes[i].level <= u16::MAX);
            }
        }
        let resolver = Resolver {
            check,
            entries: self.entries.as_slice(),
            pack_entries: pack.entries.as_slice(),
            data: pack.data.as_slice(),
            objects: pack.objects.as_slice(),
            forest: &forest,
        };
        assert(resolver@ == job_of(check, self.entries@, *pack));
        let (items, skipped) = match resolver.resolve_all() {
            Ok(found) => found,
            Err(error) => {
                return Some(Err(error));
            },
        };
        let mut outcome = match try_digest_statistics(items.as_slice()) {
            Some(outcome) => outcome,
            None => {
                return None;
            },
        };
        outcome.pack_size = pack.data.len() as u64;
        Some(Ok((id, outcome, skipped)))
    }

    /// Traverses the pack that this index describes: verifies the pack's
    /// checksum, builds the forest of delta chains, visits every object with
    /// bases before their deltas, checks each, and sums up what it found.
    /// All of it happens on the calling thread.
    pub fn traverse_with_index(&self, check: SafetyCheck, pack: &Pack) -> (res: Result<
        (ObjectId, Outcome, Vec<Error>),
        Error,
    >)
        requires
            pack.entries@.len() == self.entries@.len(),
            pack.objects@.len() == self.entries@.len(),
            offsets_ascending(self.entries@),
            !exceeds_limits(check, self.entries@, *pack),
        ensures
            is_traversal_result(check, self.entries@, *pack, res),
    {
        match self.try_traverse_with_index(check, pack) {
            Some(res) => res,
            None => unreached(),
        }
    }
}

/// Entries of which each starts after the one before are in ascending
/// order.
pub proof fn lemma_steps_ascend(entries: Seq<IndexEntry>)
    requires
        forall|k: int|
            0 < k < entries.len() ==> entries[k - 1].pack_offset < (#[trigger] entries[k]).pack_offset,
    ensures
        offsets_ascending(entries),
{
    assert forall|a: int, b: int| 0 <= a < b < entries.len() implies (#[trigger] entries[a]).pack_offset
        < (#[trigger] entries[b]).pack_offset by {
        lemma_step_reaches(entries, a, b);
    }
}

/// Going up step by step, an earlier entry starts before a later one.
pub proof fn lemma_step_reaches(entries: Seq<IndexEntry>, a: int, b: int)
    requires
        0 <= a < b < entries.len(),
        forall|k: int|
            0 < k < entries.len() ==> entries[k - 1].pack_offset < (#[trigger] entries[k]).pack_offset,
    ensures
        entries[a].pack_offset < entries[b].pack_offset,
    decreases b - a,
{
    if a + 1 < b {
        lemma_step_reaches(entries, a, b - 1);
    }
    assert(entries[b - 1].pack_offset < entries[b].pack_offset);
}

} // verus!
