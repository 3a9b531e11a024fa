//! What holds of every traversal: which objects it keeps, that none is
//! lost, and that its statistics do not depend on the order of the visit.

use vstd::prelude::*;
use crate::entry::EntryWithDefault;
use crate::outcome::{
    chain_lengths, lemma_count_bound, lemma_statistics_of_nothing, lemma_total_concat,
    lemma_total_push, no_statistics, statistics, total, Measure, Outcome,
};
use crate::forest::{base_of, lemma_base_is_earlier, lemma_shape_is_well_formed, level_of, shape_of};
use crate::index::{exceeds_limits, is_traversal_result, job_of, Pack};
use crate::pack::{checksum_matches, entry_bytes, id_of, in_range, pack_end};
use crate::hash::crc32_of;
use crate::resolve::{Job, Run};
use crate::types::{Checksum, Error, IndexEntry, ObjectId, PackEntry, SafetyCheck};

verus! {

impl Job {
    /// Whether the error found at a node ends the traversal.
    pub open spec fn fatal_at(self, node: int) -> bool {
        match self.verdict(node) {
            Ok(_) => false,
            Err(error) => error.is_fatal_under(self.check),
        }
    }

    /// Whether some node of `order` ends the traversal.
    pub open spec fn any_fatal(self, order: Seq<int>) -> bool {
        exists|p: int| 0 <= p < order.len() && self.fatal_at(#[trigger] order[p])
    }

    /// The objects of `order` that pass every check, in that order.
    pub open spec fn kept(self, order: Seq<int>) -> Seq<EntryWithDefault>
        decreases order.len(),
    {
        if order.len() == 0 {
            Seq::empty()
        } else {
            match self.verdict(order[0]) {
                Ok(item) => seq![item] + self.kept(order.drop_first()),
                Err(_) => self.kept(order.drop_first()),
            }
        }
    }

    /// The errors found at the nodes of `order`, in that order.
    pub open spec fn noted(self, order: Seq<int>) -> Seq<Error>
        decreases order.len(),
    {
        if order.len() == 0 {
            Seq::empty()
        } else {
            match self.verdict(order[0]) {
                Ok(_) => self.noted(order.drop_first()),
                Err(error) => seq![error] + self.noted(order.drop_first()),
            }
        }
    }

    /// What a node adds to a total: the measure of its object if it passes
    /// every check, else nothing.
    pub open spec fn weight(self, node: int, measure: Measure) -> nat {
        match self.verdict(node) {
            Ok(item) => measure.of(item),
            Err(_) => 0,
        }
    }

    /// What the nodes of `order` add to a total.
    pub open spec fn weights(self, order: Seq<int>, measure: Measure) -> nat
        decreases order.len(),
    {
        if order.len() == 0 {
            0
        } else {
            self.weight(order[0], measure) + self.weights(order.drop_first(), measure)
        }
    }

    /// A traversal fails exactly if it meets a node whose error the policy
    /// does not tolerate.
    pub proof fn lemma_fails_iff_fatal(self, order: Seq<int>, start: Run)
        requires
            start.failed is None,
        ensures
            self.run(order, start).failed is Some <==> self.any_fatal(order),
        decreases order.len(),
    {
        if order.len() > 0 {
            let rest = order.drop_first();
            let next = start.after(self.verdict(order[0]), self.check);
            if self.fatal_at(order[0]) {
                self.lemma_run_after_failure(rest, next);
            } else {
                self.lemma_fails_iff_fatal(rest, next);
                if self.any_fatal(rest) {
                    let p = choose|p: int| 0 <= p < rest.len() && self.fatal_at(#[trigger] rest[p]);
                    assert(order[p + 1] == rest[p]);
                }
                if self.any_fatal(order) {
                    let p = choose|p: int| 0 <= p < order.len() && self.fatal_at(#[trigger] order[p]);
                    assert(rest[p - 1] == order[p]);
                }
            }
        }
    }

    /// A traversal that does not fail keeps exactly the objects that pass
    /// every check and notes exactly the errors of the others, both in the
    /// order of the visit.
    pub proof fn lemma_run_keeps_and_notes(self, order: Seq<int>, start: Run)
        requires
            start.failed is None,
            !self.any_fatal(order),
        ensures
            self.run(order, start).failed is None,
            self.run(order, start).items == start.items + self.kept(order),
            self.run(order, start).skipped == start.skipped + self.noted(order),
        decreases order.len(),
    {
        if order.len() == 0 {
            assert(start.items + self.kept(order) =~= start.items);
            assert(start.skipped + self.noted(order) =~= start.skipped);
        } else {
            let rest = order.drop_first();
            let next = start.after(self.verdict(order[0]), self.check);
            assert(!self.fatal_at(order[0]));
            assert(!self.any_fatal(rest)) by {
                if self.any_fatal(rest) {
                    let p = choose|p: int| 0 <= p < rest.len() && self.fatal_at(#[trigger] rest[p]);
                    assert(order[p + 1] == rest[p]);
                }
            }
            self.lemma_run_keeps_and_notes(rest, next);
            assert(next.items + self.kept(rest) =~= start.items + self.kept(order));
            assert(next.skipped + self.noted(rest) =~= start.skipped + self.noted(order));
        }
    }

    /// No object is lost: every node visited is either kept or noted.
    pub proof fn lemma_kept_and_noted_add_up(self, order: Seq<int>)
        ensures
            self.kept(order).len() + self.noted(order).len() == order.len(),
        decreases order.len(),
    {
        if order.len() > 0 {
            self.lemma_kept_and_noted_add_up(order.drop_first());
        }
    }

    /// The total of the objects kept is the sum of what each node adds.
    pub proof fn lemma_total_of_kept(self, order: Seq<int>, measure: Measure)
        ensures
            total(self.kept(order), measure) == self.weights(order, measure),
        decreases order.len(),
    {
        if order.len() > 0 {
            let rest = order.drop_first();
            self.lemma_total_of_kept(rest, measure);
            match self.verdict(order[0]) {
                Ok(item) => {
                    lemma_total_concat(seq![item], self.kept(rest), measure);
                    lemma_total_push(Seq::empty(), item, measure);
                    assert(seq![item] =~= Seq::<EntryWithDefault>::empty().push(item));
                },
                Err(_) => {},
            }
        }
    }

    /// Taking one node out of a sequence takes out what it adds.
    pub proof fn lemma_weights_remove(self, order: Seq<int>, at: int, measure: Measure)
        requires
            0 <= at < order.len(),
        ensures
            self.weights(order, measure) == self.weights(order.remove(at), measure) + self.weight(
                order[at],
                measure,
            ),
        decreases at,
    {
        if at == 0 {
            assert(order.remove(0) =~= order.drop_first());
        } else {
            self.lemma_weights_remove(order.drop_first(), at - 1, measure);
            assert(order.remove(at).drop_first() =~= order.drop_first().remove(at - 1));
        }
    }

    /// What a sequence of nodes adds to a total does not depend on their
    /// order.
    pub proof fn lemma_weights_order_independent(
        self,
        first: Seq<int>,
        second: Seq<int>,
        measure: Measure,
    )
        requires
            first.to_multiset() == second.to_multiset(),
        ensures
            self.weights(first, measure) == self.weights(second, measure),
        decreases first.len(),
    {
        broadcast use vstd::seq_lib::group_to_multiset_ensures;

        assert(first.len() == second.len()) by {
            vstd::seq_lib::to_multiset_len(first);
            vstd::seq_lib::to_multiset_len(second);
        }
        if first.len() > 0 {
            let x = first[0];
            assert(first.contains(x));
            assert(first.to_multiset().count(x) > 0);
            assert(second.contains(x));
            let at = choose|at: int| 0 <= at < second.len() && second[at] == x;
            assert(first.drop_first() =~= first.remove(0));
            vstd::seq_lib::to_multiset_remove(first, 0);
            vstd::seq_lib::to_multiset_remove(second, at);
            self.lemma_weights_order_independent(first.drop_first(), second.remove(at), measure);
            self.lemma_weights_remove(second, at, measure);
        }
    }

    /// Whether a traversal fails does not depend on the order of the visit.
    pub proof fn lemma_failure_order_independent(self, first: Seq<int>, second: Seq<int>)
        requires
            first.to_multiset() == second.to_multiset(),
        ensures
            self.any_fatal(first) == self.any_fatal(second),
    {
        broadcast use vstd::seq_lib::group_to_multiset_ensures;

        if self.any_fatal(first) {
            let p = choose|p: int| 0 <= p < first.len() && self.fatal_at(#[trigger] first[p]);
            assert(first.contains(first[p]));
            assert(first.to_multiset().count(first[p]) > 0);
            assert(second.contains(first[p]));
            let q = choose|q: int| 0 <= q < second.len() && second[q] == first[p];
            assert(self.fatal_at(second[q]));
        }
        if self.any_fatal(second) {
            let p = choose|p: int| 0 <= p < second.len() && self.fatal_at(#[trigger] second[p]);
            assert(second.contains(second[p]));
            assert(second.to_multiset().count(second[p]) > 0);
            assert(first.contains(second[p]));
            let q = choose|q: int| 0 <= q < first.len() && first[q] == second[p];
            assert(self.fatal_at(first[q]));
        }
    }

    /// Two visits of the same nodes, in whatever order, as by one worker or
    /// by many, either both fail or give the same statistics.
    pub proof fn lemma_statistics_do_not_depend_on_order(
        self,
        first: Seq<int>,
        second: Seq<int>,
        pack_size: u64,
    )
        requires
            first.to_multiset() == second.to_multiset(),
        ensures
            self.run(first, Run::fresh()).failed is None <==> self.run(
                second,
                Run::fresh(),
            ).failed is None,
            self.run(first, Run::fresh()).failed is None ==> statistics(
                self.run(first, Run::fresh()).items,
                pack_size,
            ) == statistics(self.run(second, Run::fresh()).items, pack_size),
    {
        let fresh = Run::fresh();
        self.lemma_fails_iff_fatal(first, fresh);
        self.lemma_fails_iff_fatal(second, fresh);
        self.lemma_failure_order_independent(first, second);
        if !self.any_fatal(first) {
            self.lemma_run_keeps_and_notes(first, fresh);
            self.lemma_run_keeps_and_notes(second, fresh);
            let a = self.run(first, fresh).items;
            let b = self.run(second, fresh).items;
            assert(a =~= self.kept(first));
            assert(b =~= self.kept(second));
            assert forall|measure: Measure| total(a, measure) == total(b, measure) by {
                self.lemma_total_of_kept(first, measure);
                self.lemma_total_of_kept(second, measure);
                self.lemma_weights_order_independent(first, second, measure);
            }
            assert(a.len() == b.len()) by {
                lemma_count_bound(a, Measure::Count);
                lemma_count_bound(b, Measure::Count);
                assert(total(a, Measure::Count) == total(b, Measure::Count));
            }
            assert(chain_lengths(a) =~= chain_lengths(b));
        }
    }
}

/// In a pack that stores every object in full, every entry is a root at
/// level zero.
pub proof fn lemma_full_objects_stand_at_level_zero(
    entries: Seq<IndexEntry>,
    pack_entries: Seq<PackEntry>,
    i: int,
)
    requires
        0 <= i < entries.len(),
        !pack_entries[i].header.is_delta(),
    ensures
        shape_of(entries, pack_entries).nodes[i].level == 0,
        shape_of(entries, pack_entries).nodes[i].base is None,
        shape_of(entries, pack_entries).nodes[i].kind == pack_entries[i].header.kind()->0,
{
}

/// If `chain` starts at a full object and each further entry of it is a
/// delta against the one before, the entry at position `k` stands at level
/// `k`.
pub proof fn lemma_chain_levels(
    entries: Seq<IndexEntry>,
    pack_entries: Seq<PackEntry>,
    chain: Seq<int>,
    k: int,
)
    requires
        0 <= k < chain.len(),
        base_of(entries, pack_entries, chain[0]) is None,
        forall|j: int|
            0 < j < chain.len() ==> base_of(entries, pack_entries, #[trigger] chain[j]) == Some(
                chain[j - 1],
            ),
    ensures
        level_of(entries, pack_entries, chain[k]) == k,
    decreases k,
{
    if k > 0 {
        lemma_chain_levels(entries, pack_entries, chain, k - 1);
        lemma_base_is_earlier(entries, pack_entries, chain[k]);
    }
}

impl Job {
    /// An object that is visited and passes every check is among those
    /// kept.
    pub proof fn lemma_passing_object_is_kept(self, order: Seq<int>, x: int)
        requires
            order.contains(x),
            self.verdict(x) is Ok,
        ensures
            self.kept(order).contains(self.verdict(x)->Ok_0),
        decreases order.len(),
    {
        let item = self.verdict(x)->Ok_0;
        let rest = order.drop_first();
        let p = choose|p: int| 0 <= p < order.len() && order[p] == x;
        if p == 0 {
            assert((seq![item] + self.kept(rest))[0] == item);
        } else {
            assert(rest[p - 1] == x);
            self.lemma_passing_object_is_kept(rest, x);
            let q = choose|q: int| 0 <= q < self.kept(rest).len() && self.kept(rest)[q] == item;
            match self.verdict(order[0]) {
                Ok(head) => {
                    assert((seq![head] + self.kept(rest))[q + 1] == item);
                },
                Err(_) => {},
            }
        }
    }

    /// If a node is the only one of a visit that does not pass, and the
    /// policy does not tolerate its error, the visit ends with that error.
    pub proof fn lemma_only_error_is_reported(self, order: Seq<int>, x: int, start: Run)
        requires
            start.failed is None,
            order.contains(x),
            self.fatal_at(x),
            forall|p: int| 0 <= p < order.len() && #[trigger] order[p] != x ==> self.verdict(order[p]) is Ok,
        ensures
            self.run(order, start).failed == Some(self.verdict(x)->Err_0),
        decreases order.len(),
    {
        let rest = order.drop_first();
        let next = start.after(self.verdict(order[0]), self.check);
        if order[0] == x {
            self.lemma_run_after_failure(rest, next);
        } else {
            let p = choose|p: int| 0 <= p < order.len() && order[p] == x;
            assert(rest[p - 1] == x);
            assert forall|q: int| 0 <= q < rest.len() && #[trigger] rest[q] != x implies self.verdict(
                rest[q],
            ) is Ok by {
                assert(order[q + 1] == rest[q]);
            }
            self.lemma_only_error_is_reported(rest, x, next);
        }
    }

    /// Whether entry `x` lies inside the pack, was decoded and has its id,
    /// but its bytes in the pack do not have the checksum that the index
    /// records for them.
    pub open spec fn checksum_corrupted(self, x: int) -> bool {
        let end = self.end_of(x);
        &&& in_range(self.entries[x], self.pack_entries[x], end, pack_end(self.data.len()) as u64)
        &&& self.objects[x] is Some
        &&& id_of(self.check, self.shape.nodes[x].kind, self.objects[x]) matches Some(id) ==> id@
            == self.entries[x].oid@
        &&& self.entries[x].crc32 is Some
        &&& self.entries[x].crc32->0 != crc32_of(
            entry_bytes(self.data, self.entries[x].pack_offset, end),
        )
    }

    /// An entry with a corrupted checksum is found out: the error names
    /// both checksums, the entry's offset and its id. A strict policy does
    /// not tolerate it; under a lenient one the object adds nothing to any
    /// total.
    pub proof fn lemma_corrupted_checksum_is_found(self, x: int, measure: Measure)
        requires
            self.checksum_corrupted(x),
        ensures
            self.verdict(x) == Err::<EntryWithDefault, Error>(
                Error::ChecksumMismatch {
                    expected: Checksum::Crc32(self.entries[x].crc32->0),
                    actual: Checksum::Crc32(
                        crc32_of(
                            entry_bytes(self.data, self.entries[x].pack_offset, self.end_of(x)),
                        ),
                    ),
                    pack_offset: self.entries[x].pack_offset,
                    oid: self.entries[x].oid,
                },
            ),
            self.fatal_at(x) == self.check.is_strict(),
            self.weight(x, measure) == 0,
    {
    }
}

/// Under a strict policy a pack in which one entry has a corrupted
/// checksum, and every other object passes, is traversed in vain: the
/// traversal ends with the checksum error of that entry.
pub proof fn lemma_strict_traversal_reports_corruption(job: Job, x: int)
    requires
        job.shape.well_formed(),
        job.check.is_strict(),
        0 <= x < job.shape.nodes.len(),
        job.checksum_corrupted(x),
        forall|y: int| 0 <= y < job.shape.nodes.len() && y != x ==> #[trigger] job.verdict(y) is Ok,
    ensures
        job.outcome().failed == Some(job.verdict(x)->Err_0),
        job.verdict(x)->Err_0 is ChecksumMismatch,
{
    let order = job.shape.visit_order();
    job.shape.lemma_every_node_visited_once();
    job.lemma_corrupted_checksum_is_found(x, Measure::Count);
    assert forall|p: int| 0 <= p < order.len() && #[trigger] order[p] != x implies job.verdict(
        order[p],
    ) is Ok by {
        assert(order.contains(order[p]));
    }
    job.lemma_only_error_is_reported(order, x, Run::fresh());
}

/// Under a lenient policy a traversal fails only where an entry leaves the
/// pack. Where none does, every object that passes is kept, every other
/// is noted, none is lost, and each total is the sum over the objects that
/// pass.
pub proof fn lemma_lenient_traversal_goes_on(job: Job, measure: Measure)
    requires
        job.shape.well_formed(),
        !job.check.is_strict(),
        forall|y: int|
            0 <= y < job.shape.nodes.len() ==> !(#[trigger] job.verdict(y) matches Err(
                Error::OutOfRangeSlice { .. },
            )),
    ensures
        job.outcome().failed is None,
        job.outcome().items == job.kept(job.shape.visit_order()),
        job.outcome().skipped == job.noted(job.shape.visit_order()),
        job.outcome().items.len() + job.outcome().skipped.len() == job.shape.nodes.len(),
        total(job.outcome().items, measure) == job.weights(job.shape.visit_order(), measure),
{
    let order = job.shape.visit_order();
    job.shape.lemma_every_node_visited_once();
    assert(!job.any_fatal(order)) by {
        if job.any_fatal(order) {
            let p = choose|p: int| 0 <= p < order.len() && job.fatal_at(#[trigger] order[p]);
            assert(order.contains(order[p]));
        }
    }
    job.lemma_run_keeps_and_notes(order, Run::fresh());
    job.lemma_kept_and_noted_add_up(order);
    job.lemma_total_of_kept(order, measure);
    assert(Run::fresh().items + job.kept(order) =~= job.kept(order));
    assert(Run::fresh().skipped + job.noted(order) =~= job.noted(order));
}

/// A traversal in which every object passes keeps one object for every
/// entry of the index.
pub proof fn lemma_every_entry_is_counted_once(job: Job)
    requires
        job.shape.well_formed(),
        forall|y: int| 0 <= y < job.shape.nodes.len() ==> #[trigger] job.verdict(y) is Ok,
    ensures
        job.outcome().failed is None,
        job.outcome().skipped.len() == 0,
        job.outcome().items.len() == job.shape.nodes.len(),
        total(job.outcome().items, Measure::Count) == job.shape.nodes.len(),
{
    let order = job.shape.visit_order();
    job.shape.lemma_every_node_visited_once();
    assert(!job.any_fatal(order)) by {
        if job.any_fatal(order) {
            let p = choose|p: int| 0 <= p < order.len() && job.fatal_at(#[trigger] order[p]);
            assert(order.contains(order[p]));
        }
    }
    job.lemma_run_keeps_and_notes(order, Run::fresh());
    job.lemma_kept_and_noted_add_up(order);
    assert(Run::fresh().items + job.kept(order) =~= job.kept(order));
    assert(Run::fresh().skipped + job.noted(order) =~= job.noted(order));
    assert forall|p: int| 0 <= p < order.len() implies job.verdict(#[trigger] order[p]) is Ok by {
        assert(order.contains(order[p]));
    }
    lemma_nothing_noted_when_all_pass(job, order);
    lemma_count_bound(job.outcome().items, Measure::Count);
}

/// Where every object passes, no error is noted.
pub proof fn lemma_nothing_noted_when_all_pass(job: Job, order: Seq<int>)
    requires
        forall|p: int| 0 <= p < order.len() ==> job.verdict(#[trigger] order[p]) is Ok,
    ensures
        job.noted(order).len() == 0,
    decreases order.len(),
{
    if order.len() > 0 {
        let rest = order.drop_first();
        assert forall|p: int| 0 <= p < rest.len() implies job.verdict(#[trigger] rest[p]) is Ok by {
            assert(order[p + 1] == rest[p]);
        }
        lemma_nothing_noted_when_all_pass(job, rest);
    }
}

/// An object that is among those counted is counted at its level.
pub proof fn lemma_level_is_counted(items: Seq<EntryWithDefault>, item: EntryWithDefault)
    requires
        items.contains(item),
    ensures
        total(items, Measure::AtLevel(item.level as u32)) >= 1,
        chain_lengths(items).contains_key(item.level as u32),
    decreases items.len(),
{
    if items.last() != item {
        let p = choose|p: int| 0 <= p < items.len() && items[p] == item;
        assert(items.drop_last()[p] == item);
        lemma_level_is_counted(items.drop_last(), item);
    }
}

/// A pack that stores every object in full, and in which every object
/// passes: every entry is a root at level zero, and the traversal counts as
/// many objects as the index has entries, all of them at level zero.
pub proof fn lemma_pack_of_full_objects(check: SafetyCheck, entries: Seq<IndexEntry>, pack: Pack)
    requires
        entries.len() <= usize::MAX,
        forall|i: int| 0 <= i < entries.len() ==> !(#[trigger] pack.entries@[i]).header.is_delta(),
        forall|i: int|
            0 <= i < entries.len() ==> #[trigger] job_of(check, entries, pack).verdict(i) is Ok,
    ensures
        forall|i: int|
            0 <= i < entries.len() ==> (#[trigger] shape_of(entries, pack.entries@).nodes[i]).level
                == 0,
        job_of(check, entries, pack).outcome().failed is None,
        job_of(check, entries, pack).outcome().items.len() == entries.len(),
        total(job_of(check, entries, pack).outcome().items, Measure::AtLevel(0)) == entries.len(),
{
    let job = job_of(check, entries, pack);
    let order = job.shape.visit_order();
    lemma_shape_is_well_formed(entries, pack.entries@);
    lemma_every_entry_is_counted_once(job);
    job.shape.lemma_every_node_visited_once();
    assert forall|i: int| 0 <= i < entries.len() implies (#[trigger] shape_of(
        entries,
        pack.entries@,
    ).nodes[i]).level == 0 by {
        lemma_full_objects_stand_at_level_zero(entries, pack.entries@, i);
    }
    assert forall|p: int| 0 <= p < order.len() implies job.weight(
        #[trigger] order[p],
        Measure::AtLevel(0),
    ) == 1 by {
        assert(order.contains(order[p]));
        assert(job.verdict(order[p]) is Ok);
        assert(job.shape.nodes[order[p]].level == 0);
    }
    lemma_weights_of_ones(job, order, Measure::AtLevel(0));
    lemma_totals_are_weights(job, order, Measure::AtLevel(0));
}

/// Where every node adds one, the sum is the number of nodes.
pub proof fn lemma_weights_of_ones(job: Job, order: Seq<int>, measure: Measure)
    requires
        forall|p: int| 0 <= p < order.len() ==> job.weight(#[trigger] order[p], measure) == 1,
    ensures
        job.weights(order, measure) == order.len(),
    decreases order.len(),
{
    if order.len() > 0 {
        let rest = order.drop_first();
        assert forall|p: int| 0 <= p < rest.len() implies job.weight(#[trigger] rest[p], measure)
            == 1 by {
            assert(order[p + 1] == rest[p]);
        }
        lemma_weights_of_ones(job, rest, measure);
        assert(job.weight(order[0], measure) == 1);
    }
}

/// Where no node of a visit ends the traversal, each total is the sum of
/// what the nodes add.
pub proof fn lemma_totals_are_weights(job: Job, order: Seq<int>, measure: Measure)
    requires
        !job.any_fatal(order),
    ensures
        total(job.run(order, Run::fresh()).items, measure) == job.weights(order, measure),
{
    job.lemma_run_keeps_and_notes(order, Run::fresh());
    job.lemma_total_of_kept(order, measure);
    assert(Run::fresh().items + job.kept(order) =~= job.kept(order));
}

/// In a traversal that does not fail, an object that passes and stands at
/// the end of a chain of `k` deltas is kept with level `k`, and the count
/// of objects at level `k` includes it.
pub proof fn lemma_chain_end_is_counted(
    check: SafetyCheck,
    entries: Seq<IndexEntry>,
    pack: Pack,
    chain: Seq<int>,
    k: int,
)
    requires
        entries.len() <= usize::MAX,
        0 <= k < chain.len(),
        k <= u16::MAX,
        0 <= chain[k] < entries.len(),
        base_of(entries, pack.entries@, chain[0]) is None,
        forall|j: int|
            0 < j < chain.len() ==> base_of(entries, pack.entries@, #[trigger] chain[j]) == Some(
                chain[j - 1],
            ),
        job_of(check, entries, pack).verdict(chain[k]) is Ok,
        job_of(check, entries, pack).outcome().failed is None,
    ensures
        shape_of(entries, pack.entries@).nodes[chain[k]].level == k,
        job_of(check, entries, pack).verdict(chain[k])->Ok_0.level == k,
        job_of(check, entries, pack).outcome().items.contains(
            job_of(check, entries, pack).verdict(chain[k])->Ok_0,
        ),
        chain_lengths(job_of(check, entries, pack).outcome().items).contains_key(k as u32),
        total(job_of(check, entries, pack).outcome().items, Measure::AtLevel(k as u32)) >= 1,
{
    let job = job_of(check, entries, pack);
    let order = job.shape.visit_order();
    let item = job.verdict(chain[k])->Ok_0;
    lemma_chain_levels(entries, pack.entries@, chain, k);
    lemma_shape_is_well_formed(entries, pack.entries@);
    job.shape.lemma_every_node_visited_once();
    job.lemma_fails_iff_fatal(order, Run::fresh());
    job.lemma_run_keeps_and_notes(order, Run::fresh());
    assert(Run::fresh().items + job.kept(order) =~= job.kept(order));
    job.lemma_passing_object_is_kept(order, chain[k]);
    lemma_level_is_counted(job.outcome().items, item);
}

/// The traversal of a pack without entries visits nothing, exceeds no
/// limit and does not fail once the pack's checksum is verified, and all its
/// totals, counts and averages are zero.
pub proof fn lemma_empty_pack(
    check: SafetyCheck,
    pack: Pack,
    res: Result<(ObjectId, Outcome, Vec<Error>), Error>,
)
    requires
        checksum_matches(pack.data@),
        is_traversal_result(check, Seq::empty(), pack, res),
    ensures
        !exceeds_limits(check, Seq::empty(), pack),
        job_of(check, Seq::empty(), pack).outcome() == Run::fresh(),
        res matches Ok((_, outcome, skipped)) && skipped@.len() == 0 && outcome@ == no_statistics(
            pack.data@.len() as u64,
        ),
{
    let job = job_of(check, Seq::empty(), pack);
    assert(job.shape.roots.len() == 0);
    assert(job.shape.visit_order() =~= Seq::empty());
    lemma_statistics_of_nothing(pack.data@.len() as u64);
}

/// Workers that between them resolve the tree of every root once, in
/// whatever order, fail exactly if a single worker fails, and else reach
/// the statistics that a single worker reaches. `roots` lists the roots in
/// the order in which their trees were resolved.
pub proof fn lemma_workers_agree(job: Job, roots: Seq<usize>, pack_size: u64)
    requires
        roots.to_multiset() == job.shape.roots.to_multiset(),
    ensures
        job.run(job.shape.trees_of(roots), Run::fresh()).failed is None
            <==> job.outcome().failed is None,
        job.outcome().failed is None ==> statistics(
            job.run(job.shape.trees_of(roots), Run::fresh()).items,
            pack_size,
        ) == statistics(job.outcome().items, pack_size),
{
    let shape = job.shape;
    shape.lemma_visit_order_is_trees_of_roots(0);
    assert(shape.roots.skip(0) =~= shape.roots);
    shape.lemma_trees_in_any_order(roots, shape.roots);
    job.lemma_statistics_do_not_depend_on_order(
        shape.trees_of(roots),
        shape.visit_order(),
        pack_size,
    );
}

} // verus!
