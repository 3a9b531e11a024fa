//! The statistics of a traversal: totals, counts by kind and by chain
//! length, and averages.

use std::collections::BTreeMap;
use vstd::prelude::*;
use vstd::std_specs::btree::group_btree_axioms;
use crate::entry::EntryWithDefault;
use crate::types::ObjectKind;

verus! {

/// A quantity that is added up over the objects of a traversal.
pub enum Measure {
    /// One for every object.
    Count,
    CompressedSize,
    DecompressedSize,
    ObjectSize,
    /// The object's level, that is the number of deltas in its chain.
    Deltas,
    /// One for every object of the kind.
    OfKind(ObjectKind),
    /// One for every object at the level.
    AtLevel(u32),
}

impl Measure {
    /// What one object adds to the quantity.
    pub open spec fn of(self, entry: EntryWithDefault) -> nat {
        match self {
            Measure::Count => 1,
            Measure::CompressedSize => entry.compressed_size as nat,
            Measure::DecompressedSize => entry.decompressed_size as nat,
            Measure::ObjectSize => entry.object_size as nat,
            Measure::Deltas => entry.level as nat,
            Measure::OfKind(kind) => if entry.object_kind == kind { 1 } else { 0 },
            Measure::AtLevel(level) => if entry.level as u32 == level { 1 } else { 0 },
        }
    }
}

/// The sum of a measure over a sequence of objects.
pub open spec fn total(items: Seq<EntryWithDefault>, measure: Measure) -> nat
    decreases items.len(),
{
    if items.len() == 0 {
        0
    } else {
        total(items.drop_last(), measure) + measure.of(items.last())
    }
}

/// A total shared out evenly among `count` objects, rounded down; zero when
/// there is no object.
pub open spec fn average_of(sum: nat, count: nat) -> nat {
    if count == 0 {
        0
    } else {
        sum / count
    }
}

/// Whether every number of the statistics of `items` fits its field.
pub open spec fn statistics_fit(items: Seq<EntryWithDefault>) -> bool {
    &&& items.len() <= u32::MAX
    &&& total(items, Measure::CompressedSize) <= u64::MAX
    &&& total(items, Measure::DecompressedSize) <= u64::MAX
    &&& total(items, Measure::ObjectSize) <= u64::MAX
    &&& total(items, Measure::Deltas) <= u32::MAX
}

/// Averages over all objects of a traversal, each rounded down.
#[derive(Clone, Copy, Debug, PartialEq, Eq)]
pub struct Average {
    pub num_deltas: u32,
    pub decompressed_size: u64,
    pub compressed_size: u64,
    pub object_size: u64,
}

/// What a traversal reports of the pack as a whole.
#[derive(Clone, Debug, PartialEq, Eq)]
pub struct Outcome {
    pub average: Average,
    /// For every level that some object has, the number of objects at it.
    pub objects_per_chain_length: BTreeMap<u32, u32>,
    pub total_compressed_entries_size: u64,
    pub total_decompressed_entries_size: u64,
    pub total_object_size: u64,
    /// Number of bytes in the pack, trailer included.
    pub pack_size: u64,
    pub num_commits: u32,
    pub num_trees: u32,
    pub num_tags: u32,
    pub num_blobs: u32,
}

/// The mathematical content of an [`Outcome`].
pub struct OutcomeView {
    pub average: Average,
    pub objects_per_chain_length: Map<u32, u32>,
    pub total_compressed_entries_size: u64,
    pub total_decompressed_entries_size: u64,
    pub total_object_size: u64,
    pub pack_size: u64,
    pub num_commits: u32,
    pub num_trees: u32,
    pub num_tags: u32,
    pub num_blobs: u32,
}

impl View for Outcome {
    type V = OutcomeView;

    open spec fn view(&self) -> OutcomeView {
        OutcomeView {
            average: self.average,
            objects_per_chain_length: self.objects_per_chain_length@,
            total_compressed_entries_size: self.total_compressed_entries_size,
            total_decompressed_entries_size: self.total_decompressed_entries_size,
            total_object_size: self.total_object_size,
            pack_size: self.pack_size,
            num_commits: self.num_commits,
            num_trees: self.num_trees,
            num_tags: self.num_tags,
            num_blobs: self.num_blobs,
        }
    }
}

/// The number of objects at each level that has any.
pub open spec fn chain_lengths(items: Seq<EntryWithDefault>) -> Map<u32, u32> {
    Map::new(
        |level: u32| total(items, Measure::AtLevel(level)) > 0,
        |level: u32| total(items, Measure::AtLevel(level)) as u32,
    )
}

/// The statistics of a sequence of objects found in a pack of `pack_size`
/// bytes.
pub open spec fn statistics(items: Seq<EntryWithDefault>, pack_size: u64) -> OutcomeView {
    let count = items.len();
    OutcomeView {
        average: Average {
            num_deltas: average_of(total(items, Measure::Deltas), count) as u32,
            decompressed_size: average_of(total(items, Measure::DecompressedSize), count) as u64,
            compressed_size: average_of(total(items, Measure::CompressedSize), count) as u64,
            object_size: average_of(total(items, Measure::ObjectSize), count) as u64,
        },
        objects_per_chain_length: chain_lengths(items),
        total_compressed_entries_size: total(items, Measure::CompressedSize) as u64,
        total_decompressed_entries_size: total(items, Measure::DecompressedSize) as u64,
        total_object_size: total(items, Measure::ObjectSize) as u64,
        pack_size,
        num_commits: total(items, Measure::OfKind(ObjectKind::Commit)) as u32,
        num_trees: total(items, Measure::OfKind(ObjectKind::Tree)) as u32,
        num_tags: total(items, Measure::OfKind(ObjectKind::Tag)) as u32,
        num_blobs: total(items, Measure::OfKind(ObjectKind::Blob)) as u32,
    }
}

/// Adding an object adds its measure.
pub proof fn lemma_total_push(items: Seq<EntryWithDefault>, entry: EntryWithDefault, measure: Measure)
    ensures
        total(items.push(entry), measure) == total(items, measure) + measure.of(entry),
{
    assert(items.push(entry).drop_last() =~= items);
}

/// The total of a concatenation is the sum of the totals.
pub proof fn lemma_total_concat(a: Seq<EntryWithDefault>, b: Seq<EntryWithDefault>, measure: Measure)
    ensures
        total(a + b, measure) == total(a, measure) + total(b, measure),
    decreases b.len(),
{
    if b.len() == 0 {
        assert(a + b =~= a);
    } else {
        lemma_total_concat(a, b.drop_last(), measure);
        assert((a + b).drop_last() =~= a + b.drop_last());
    }
}

/// A prefix never adds up to more than the whole.
pub proof fn lemma_total_prefix(items: Seq<EntryWithDefault>, n: int, measure: Measure)
    requires
        0 <= n <= items.len(),
    ensures
        total(items.take(n), measure) <= total(items, measure),
{
    lemma_total_concat(items.take(n), items.skip(n), measure);
    assert(items.take(n) + items.skip(n) =~= items);
}

/// No measure counts an object for more than one, but the sizes and the
/// level: so counts never exceed the number of objects.
pub proof fn lemma_count_bound(items: Seq<EntryWithDefault>, measure: Measure)
    requires
        measure is Count || measure is OfKind || measure is AtLevel,
    ensures
        total(items, measure) <= items.len(),
        measure is Count ==> total(items, measure) == items.len(),
    decreases items.len(),
{
    if items.len() > 0 {
        lemma_count_bound(items.drop_last(), measure);
    }
}

/// Taking one object out takes its measure out of the total.
pub proof fn lemma_total_remove(items: Seq<EntryWithDefault>, at: int, measure: Measure)
    requires
        0 <= at < items.len(),
    ensures
        total(items, measure) == total(items.remove(at), measure) + measure.of(items[at]),
{
    let head = items.take(at);
    let tail = items.skip(at + 1);
    assert(items =~= head.push(items[at]) + tail);
    assert(items.remove(at) =~= head + tail);
    lemma_total_concat(head.push(items[at]), tail, measure);
    lemma_total_concat(head, tail, measure);
    lemma_total_push(head, items[at], measure);
}

/// A total does not depend on the order of the objects: two sequences that
/// hold the same objects the same number of times add up to the same.
pub proof fn lemma_total_order_independent(
    a: Seq<EntryWithDefault>,
    b: Seq<EntryWithDefault>,
    measure: Measure,
)
    requires
        a.to_multiset() == b.to_multiset(),
    ensures
        total(a, measure) == total(b, measure),
    decreases a.len(),
{
    broadcast use vstd::seq_lib::group_to_multiset_ensures;

    assert(a.len() == b.len()) by {
        vstd::seq_lib::to_multiset_len(a);
        vstd::seq_lib::to_multiset_len(b);
    }
    if a.len() > 0 {
        let x = a.last();
        assert(a.contains(x));
        assert(a.to_multiset().count(x) > 0);
        assert(b.contains(x));
        let at = choose|at: int| 0 <= at < b.len() && b[at] == x;
        assert(a.drop_last() =~= a.remove(a.len() - 1));
        vstd::seq_lib::to_multiset_remove(a, a.len() - 1);
        vstd::seq_lib::to_multiset_remove(b, at);
        lemma_total_order_independent(a.drop_last(), b.remove(at), measure);
        lemma_total_remove(b, at, measure);
    }
}

/// The statistics of a pack do not depend on the order in which its objects
/// were visited, as when the same pack is resolved by one worker and by
/// many.
pub proof fn lemma_statistics_order_independent(
    a: Seq<EntryWithDefault>,
    b: Seq<EntryWithDefault>,
    pack_size: u64,
)
    requires
        a.to_multiset() == b.to_multiset(),
    ensures
        statistics(a, pack_size) == statistics(b, pack_size),
        statistics_fit(a) == statistics_fit(b),
{
    assert(a.len() == b.len()) by {
        vstd::seq_lib::to_multiset_len(a);
        vstd::seq_lib::to_multiset_len(b);
    }
    assert forall|measure: Measure| total(a, measure) == total(b, measure) by {
        lemma_total_order_independent(a, b, measure);
    }
    assert(chain_lengths(a) =~= chain_lengths(b));
}

/// The statistics in which every total, count and average is zero and no
/// level has an entry.
pub open spec fn no_statistics(pack_size: u64) -> OutcomeView {
    OutcomeView {
        average: Average { num_deltas: 0, decompressed_size: 0, compressed_size: 0, object_size: 0 },
        objects_per_chain_length: Map::empty(),
        total_compressed_entries_size: 0,
        total_decompressed_entries_size: 0,
        total_object_size: 0,
        pack_size,
        num_commits: 0,
        num_trees: 0,
        num_tags: 0,
        num_blobs: 0,
    }
}

/// With no object every total, count and average is zero and no level has
/// an entry.
pub proof fn lemma_statistics_of_nothing(pack_size: u64)
    ensures
        statistics_fit(Seq::empty()),
        statistics(Seq::empty(), pack_size) == no_statistics(pack_size),
{
    assert(chain_lengths(Seq::empty()) =~= Map::empty());
}

/// Every object is counted under exactly one kind and at exactly one level.
pub proof fn lemma_counts_add_up(items: Seq<EntryWithDefault>)
    ensures
        total(items, Measure::Count) == items.len(),
        total(items, Measure::OfKind(ObjectKind::Commit)) + total(
            items,
            Measure::OfKind(ObjectKind::Tree),
        ) + total(items, Measure::OfKind(ObjectKind::Tag)) + total(
            items,
            Measure::OfKind(ObjectKind::Blob),
        ) == items.len(),
    decreases items.len(),
{
    if items.len() > 0 {
        lemma_counts_add_up(items.drop_last());
    }
}

/// Folds the resolved objects into the statistics of the pack. The pack's
/// size is left at zero for the caller to fill in.
pub fn digest_statistics(items: &[EntryWithDefault]) -> (res: Outcome)
    requires
        statistics_fit(items@),
    ensures
        res@ == statistics(items@, 0),
{
    broadcast use group_btree_axioms;

    let mut per_level: BTreeMap<u32, u32> = BTreeMap::new();
    let mut compressed: u64 = 0;
    let mut decompressed: u64 = 0;
    let mut object_size: u64 = 0;
    let mut deltas: u32 = 0;
    let mut commits: u32 = 0;
    let mut trees: u32 = 0;
    let mut tags: u32 = 0;
    let mut blobs: u32 = 0;
    let mut i: usize = 0;
    while i < items.len()
        invariant
            i <= items.len(),
            statistics_fit(items@),
            compressed == total(items@.take(i as int), Measure::CompressedSize),
            decompressed == total(items@.take(i as int), Measure::DecompressedSize),
            object_size == total(items@.take(i as int), Measure::ObjectSize),
            deltas == total(items@.take(i as int), Measure::Deltas),
            commits == total(items@.take(i as int), Measure::OfKind(ObjectKind::Commit)),
            trees == total(items@.take(i as int), Measure::OfKind(ObjectKind::Tree)),
            tags == total(items@.take(i as int), Measure::OfKind(ObjectKind::Tag)),
            blobs == total(items@.take(i as int), Measure::OfKind(ObjectKind::Blob)),
            per_level@ == chain_lengths(items@.take(i as int)),
        decreases items.len() - i,
    {
        let item = &items[i];
        let ghost before = items@.take(i as int);
        let ghost after = items@.take(i + 1);
        let level = item.level as u32;
        proof {
            assert(after =~= before.push(*item));
            lemma_total_push(before, *item, Measure::CompressedSize);
            lemma_total_push(before, *item, Measure::DecompressedSize);
            lemma_total_push(before, *item, Measure::ObjectSize);
            lemma_total_push(before, *item, Measure::Deltas);
            lemma_total_push(before, *item, Measure::OfKind(ObjectKind::Commit));
            lemma_total_push(before, *item, Measure::OfKind(ObjectKind::Tree));
            lemma_total_push(before, *item, Measure::OfKind(ObjectKind::Tag));
            lemma_total_push(before, *item, Measure::OfKind(ObjectKind::Blob));
            lemma_total_prefix(items@, i + 1, Measure::CompressedSize);
            lemma_total_prefix(items@, i + 1, Measure::DecompressedSize);
            lemma_total_prefix(items@, i + 1, Measure::ObjectSize);
            lemma_total_prefix(items@, i + 1, Measure::Deltas);
            lemma_count_bound(after, Measure::OfKind(ObjectKind::Commit));
            lemma_count_bound(after, Measure::OfKind(ObjectKind::Tree));
            lemma_count_bound(after, Measure::OfKind(ObjectKind::Tag));
            lemma_count_bound(after, Measure::OfKind(ObjectKind::Blob));
            lemma_count_bound(after, Measure::AtLevel(level));
            lemma_total_push(before, *item, Measure::AtLevel(level));
        }
        compressed += item.compressed_size;
        decompressed += item.decompressed_size;
        object_size += item.object_size;
        deltas += level;
        match item.object_kind {
            ObjectKind::Blob => blobs += 1,
            ObjectKind::Tree => trees += 1,
            ObjectKind::Tag => tags += 1,
            ObjectKind::Commit => commits += 1,
        }
        let seen: u32 = match per_level.get(&level) {
            Some(count) => *count,
            None => 0,
        };
        per_level.insert(level, seen + 1);
        proof {
            assert forall|l: u32| l != level implies total(after, Measure::AtLevel(l)) == total(
                before,
                Measure::AtLevel(l),
            ) by {
                lemma_total_push(before, *item, Measure::AtLevel(l));
            }
            assert(per_level@ =~= chain_lengths(after));
        }
        i += 1;
    }
    proof {
        assert(items@.take(i as int) =~= items@);
    }
    let count = items.len();
    let average = if count == 0 {
        Average { num_deltas: 0, decompressed_size: 0, compressed_size: 0, object_size: 0 }
    } else {
        Average {
            num_deltas: deltas / (count as u32),
            decompressed_size: decompressed / (count as u64),
            compressed_size: compressed / (count as u64),
            object_size: object_size / (count as u64),
        }
    };
    Outcome {
        average,
        objects_per_chain_length: per_level,
        total_compressed_entries_size: compressed,
        total_decompressed_entries_size: decompressed,
        total_object_size: object_size,
        pack_size: 0,
        num_commits: commits,
        num_trees: trees,
        num_tags: tags,
        num_blobs: blobs,
    }
}

/// Folds the resolved objects into the statistics of the pack if every
/// number of them fits its field, and says so if one does not.
pub fn try_digest_statistics(items: &[EntryWithDefault]) -> (res: Option<Outcome>)
    ensures
        match res {
            Some(outcome) => statistics_fit(items@) && outcome@ == statistics(items@, 0),
            None => !statistics_fit(items@),
        },
{
    if items.len() > u32::MAX as usize {
        return None;
    }
    let mut compressed: u64 = 0;
    let mut decompressed: u64 = 0;
    let mut object_size: u64 = 0;
    let mut deltas: u32 = 0;
    let mut i: usize = 0;
    while i < items.len()
        invariant
            i <= items.len(),
            compressed == total(items@.take(i as int), Measure::CompressedSize),
            decompressed == total(items@.take(i as int), Measure::DecompressedSize),
            object_size == total(items@.take(i as int), Measure::ObjectSize),
            deltas == total(items@.take(i as int), Measure::Deltas),
        decreases items.len() - i,
    {
        let item = &items[i];
        proof {
            let before = items@.take(i as int);
            assert(items@.take(i + 1) =~= before.push(*item));
            lemma_total_push(before, *item, Measure::CompressedSize);
            lemma_total_push(before, *item, Measure::DecompressedSize);
            lemma_total_push(before, *item, Measure::ObjectSize);
            lemma_total_push(before, *item, Measure::Deltas);
            lemma_total_prefix(items@, i + 1, Measure::CompressedSize);
            lemma_total_prefix(items@, i + 1, Measure::DecompressedSize);
            lemma_total_prefix(items@, i + 1, Measure::ObjectSize);
            lemma_total_prefix(items@, i + 1, Measure::Deltas);
        }
        let sums = (
            compressed.checked_add(item.compressed_size),
            decompressed.checked_add(item.decompressed_size),
            object_size.checked_add(item.object_size),
            deltas.checked_add(item.level as u32),
        );
        match sums {
            (Some(c), Some(d), Some(o), Some(l)) => {
                compressed = c;
                decompressed = d;
                object_size = o;
                deltas = l;
            },
            _ => {
                return None;
            },
        }
        i += 1;
    }
    proof {
        assert(items@.take(i as int) =~= items@);
    }
    Some(digest_statistics(items))
}

} // verus!
