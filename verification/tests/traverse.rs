use pack_traverse::entry::EntryWithDefault;
use pack_traverse::forest::Forest;
use pack_traverse::index::{File, Pack};
use pack_traverse::outcome::digest_statistics;
use pack_traverse::resolve::Resolver;
use pack_traverse::types::{Checksum, Error, Header, IndexEntry, ObjectId, ObjectKind, PackEntry, SafetyCheck};

const STRICT: SafetyCheck = SafetyCheck { strict: true, object_ids: false };
const LENIENT: SafetyCheck = SafetyCheck { strict: false, object_ids: false };

fn id(n: u8) -> ObjectId {
    ObjectId { bytes: [n; 20] }
}

fn sealed(mut content: Vec<u8>) -> Vec<u8> {
    let mut hasher = git_features::hash::Sha1::default();
    hasher.update(&content);
    content.extend_from_slice(&hasher.digest());
    content
}

fn content(len: usize) -> Vec<u8> {
    (0..len).map(|i| (i * 7 + 3) as u8).collect()
}

fn crc_of(data: &[u8], start: u64, end: u64) -> u32 {
    git_features::hash::crc32(&data[start as usize..end as usize])
}

fn entry(header: Header, offset: u64, header_size: u16, decompressed_size: u64) -> PackEntry {
    PackEntry { header, decompressed_size, header_size, data_offset: offset + header_size as u64 }
}

/// Three full objects at 12, 20 and 30, a delta at 40 against the blob at
/// 12, and a delta at 50 against the delta at 40; the entries end at 60.
fn five_objects() -> (File, Pack) {
    let data = sealed(content(60));
    let offsets = [12u64, 20, 30, 40, 50];
    let ends = [20u64, 30, 40, 50, 60];
    let entries = (0..5)
        .map(|i| IndexEntry {
            oid: id(i as u8 + 1),
            pack_offset: offsets[i],
            crc32: Some(crc_of(&data, offsets[i], ends[i])),
        })
        .collect();
    let pack_entries = vec![
        entry(Header::Blob, 12, 2, 100),
        entry(Header::Tree, 20, 2, 200),
        entry(Header::Commit, 30, 3, 300),
        entry(Header::OfsDelta { base_distance: 28 }, 40, 4, 40),
        entry(Header::RefDelta { base_id: id(4) }, 50, 5, 50),
    ];
    let objects = vec![
        Some(vec![0u8; 100]),
        Some(vec![0u8; 200]),
        Some(vec![0u8; 300]),
        Some(vec![0u8; 110]),
        Some(vec![0u8; 120]),
    ];
    (File { entries }, Pack { data, entries: pack_entries, objects })
}

#[test]
fn five_objects_are_counted_by_kind_and_level() {
    let (index, pack) = five_objects();
    let (pack_id, outcome, skipped) = index.traverse_with_index(STRICT, &pack).unwrap();
    assert_eq!(&pack_id.bytes[..], &pack.data[60..]);
    assert!(skipped.is_empty());
    assert_eq!(outcome.num_blobs, 3);
    assert_eq!(outcome.num_trees, 1);
    assert_eq!(outcome.num_commits, 1);
    assert_eq!(outcome.num_tags, 0);
    let levels: Vec<(u32, u32)> = outcome.objects_per_chain_length.iter().map(|(k, v)| (*k, *v)).collect();
    assert_eq!(levels, vec![(0, 3), (1, 1), (2, 1)]);
    assert_eq!(outcome.average.num_deltas, 0);
    assert_eq!(outcome.pack_size, 80);
    assert_eq!(outcome.total_object_size, 830);
    assert_eq!(outcome.total_decompressed_entries_size, 690);
    assert_eq!(outcome.total_compressed_entries_size, 6 + 8 + 7 + 6 + 5);
    assert_eq!(outcome.average.object_size, 166);
    assert_eq!(outcome.average.decompressed_size, 138);
    assert_eq!(outcome.average.compressed_size, 6);
}

#[test]
fn empty_pack_gives_zero_statistics() {
    let index = File { entries: vec![] };
    let pack = Pack { data: sealed(vec![]), entries: vec![], objects: vec![] };
    let (pack_id, outcome, skipped) = index.traverse_with_index(STRICT, &pack).unwrap();
    assert_eq!(
        pack_id.bytes,
        [
            0xda, 0x39, 0xa3, 0xee, 0x5e, 0x6b, 0x4b, 0x0d, 0x32, 0x55, 0xbf, 0xef, 0x95, 0x60, 0x18, 0x90, 0xaf,
            0xd8, 0x07, 0x09
        ]
    );
    assert!(skipped.is_empty());
    assert_eq!(outcome.pack_size, 20);
    assert_eq!(outcome.total_compressed_entries_size, 0);
    assert_eq!(outcome.total_decompressed_entries_size, 0);
    assert_eq!(outcome.total_object_size, 0);
    assert_eq!(outcome.num_blobs + outcome.num_trees + outcome.num_commits + outcome.num_tags, 0);
    assert!(outcome.objects_per_chain_length.is_empty());
    assert_eq!(outcome.average.num_deltas, 0);
    assert_eq!(outcome.average.object_size, 0);
    assert_eq!(outcome.average.compressed_size, 0);
    assert_eq!(outcome.average.decompressed_size, 0);
}

#[test]
fn full_objects_only_all_stand_at_level_zero() {
    let data = sealed(content(42));
    let offsets = [12u64, 22, 32];
    let entries: Vec<IndexEntry> =
        offsets.iter().map(|o| IndexEntry { oid: id(*o as u8), pack_offset: *o, crc32: None }).collect();
    let pack_entries = vec![
        entry(Header::Tag, 12, 1, 5),
        entry(Header::Blob, 22, 1, 6),
        entry(Header::Tree, 32, 1, 7),
    ];
    let forest = Forest::from_offsets_in_pack(&entries, &pack_entries).unwrap();
    assert_eq!(forest.nodes.len(), 3);
    assert_eq!(forest.roots, vec![0, 1, 2]);
    for node in &forest.nodes {
        assert_eq!(node.level, 0);
        assert_eq!(node.base, None);
        assert!(node.children.is_empty());
    }
    let pack = Pack { data, entries: pack_entries, objects: vec![Some(vec![1]), Some(vec![2, 2]), Some(vec![])] };
    let (_, outcome, _) = File { entries }.traverse_with_index(STRICT, &pack).unwrap();
    assert_eq!(outcome.num_tags + outcome.num_blobs + outcome.num_trees + outcome.num_commits, 3);
    assert_eq!(outcome.objects_per_chain_length.get(&0), Some(&3));
    assert_eq!(outcome.objects_per_chain_length.len(), 1);
    assert_eq!(outcome.total_object_size, 3);
    assert_eq!(outcome.total_compressed_entries_size, 27);
}

#[test]
fn a_chain_of_three_deltas_ends_at_level_three() {
    let data = sealed(content(52));
    let offsets = [12u64, 22, 32, 42];
    let entries: Vec<IndexEntry> =
        offsets.iter().map(|o| IndexEntry { oid: id(*o as u8), pack_offset: *o, crc32: None }).collect();
    let pack_entries = vec![
        entry(Header::Commit, 12, 1, 5),
        entry(Header::OfsDelta { base_distance: 10 }, 22, 2, 6),
        entry(Header::OfsDelta { base_distance: 10 }, 32, 2, 7),
        entry(Header::RefDelta { base_id: id(32) }, 42, 2, 8),
    ];
    let forest = Forest::from_offsets_in_pack(&entries, &pack_entries).unwrap();
    let levels: Vec<usize> = forest.nodes.iter().map(|n| n.level).collect();
    assert_eq!(levels, vec![0, 1, 2, 3]);
    let bases: Vec<Option<usize>> = forest.nodes.iter().map(|n| n.base).collect();
    assert_eq!(bases, vec![None, Some(0), Some(1), Some(2)]);
    assert_eq!(forest.nodes[0].children, vec![1]);
    assert_eq!(forest.nodes[3].kind, ObjectKind::Commit);
    assert_eq!(forest.roots, vec![0]);
    let pack = Pack { data, entries: pack_entries, objects: vec![Some(vec![]); 4] };
    let (_, outcome, _) = File { entries }.traverse_with_index(STRICT, &pack).unwrap();
    assert_eq!(outcome.objects_per_chain_length.get(&3), Some(&1));
    assert_eq!(outcome.objects_per_chain_length.len(), 4);
    assert_eq!(outcome.num_commits, 4);
    assert_eq!(outcome.average.num_deltas, 1);
}

#[test]
fn statistics_do_not_depend_on_the_order_of_the_trees() {
    let (index, pack) = five_objects();
    let forest = Forest::from_offsets_in_pack(&index.entries, &pack.entries).unwrap();
    let resolver = Resolver {
        check: STRICT,
        entries: &index.entries,
        pack_entries: &pack.entries,
        data: &pack.data,
        objects: &pack.objects,
        forest: &forest,
    };
    let (in_order, _) = resolver.resolve_all().unwrap();
    let mut reversed = Vec::new();
    let mut skipped = Vec::new();
    for root in forest.roots.iter().rev() {
        resolver.resolve_tree(*root, &mut reversed, &mut skipped).unwrap();
    }
    let offsets = |items: &Vec<EntryWithDefault>| -> Vec<u64> {
        items.iter().map(|i| i.index_entry.pack_offset).collect()
    };
    assert_eq!(offsets(&in_order), vec![12, 40, 50, 20, 30]);
    assert_eq!(offsets(&reversed), vec![30, 20, 12, 40, 50]);
    assert_eq!(digest_statistics(&in_order), digest_statistics(&reversed));
}

#[test]
fn a_corrupted_checksum_is_fatal_when_strict() {
    let (mut index, pack) = five_objects();
    let good = index.entries[3].crc32.unwrap();
    index.entries[3].crc32 = Some(good ^ 1);
    let error = index.traverse_with_index(STRICT, &pack).unwrap_err();
    assert_eq!(
        error,
        Error::ChecksumMismatch {
            expected: Checksum::Crc32(good ^ 1),
            actual: Checksum::Crc32(good),
            pack_offset: 40,
            oid: id(4)
        }
    );
}

#[test]
fn a_corrupted_checksum_is_left_out_when_lenient() {
    let (mut index, pack) = five_objects();
    let good = index.entries[1].crc32.unwrap();
    index.entries[1].crc32 = Some(!good);
    let (_, outcome, skipped) = index.traverse_with_index(LENIENT, &pack).unwrap();
    assert_eq!(
        skipped,
        vec![Error::ChecksumMismatch {
            expected: Checksum::Crc32(!good),
            actual: Checksum::Crc32(good),
            pack_offset: 20,
            oid: id(2)
        }]
    );
    assert_eq!(outcome.num_trees, 0);
    assert_eq!(outcome.num_blobs, 3);
    assert_eq!(outcome.num_commits, 1);
    assert_eq!(outcome.total_object_size, 630);
    assert_eq!(outcome.objects_per_chain_length.get(&0), Some(&2));
    assert_eq!(outcome.average.object_size, 157);
}

#[test]
fn a_delta_without_base_fails_the_forest() {
    let (index, mut pack) = five_objects();
    pack.entries[3].header = Header::OfsDelta { base_distance: 27 };
    assert_eq!(
        Forest::from_offsets_in_pack(&index.entries, &pack.entries).unwrap_err(),
        Error::DanglingDeltaBase { pack_offset: 40 }
    );
    assert_eq!(
        index.traverse_with_index(LENIENT, &pack).unwrap_err(),
        Error::DanglingDeltaBase { pack_offset: 40 }
    );
}

#[test]
fn a_delta_against_a_later_or_unknown_object_dangles() {
    let (index, mut pack) = five_objects();
    pack.entries[3].header = Header::RefDelta { base_id: id(5) };
    assert_eq!(
        Forest::from_offsets_in_pack(&index.entries, &pack.entries).unwrap_err(),
        Error::DanglingDeltaBase { pack_offset: 40 }
    );
    pack.entries[3].header = Header::RefDelta { base_id: id(9) };
    assert_eq!(
        Forest::from_offsets_in_pack(&index.entries, &pack.entries).unwrap_err(),
        Error::DanglingDeltaBase { pack_offset: 40 }
    );
    pack.entries[3].header = Header::OfsDelta { base_distance: 41 };
    assert_eq!(
        Forest::from_offsets_in_pack(&index.entries, &pack.entries).unwrap_err(),
        Error::DanglingDeltaBase { pack_offset: 40 }
    );
    pack.entries[3].header = Header::OfsDelta { base_distance: 0 };
    assert_eq!(
        Forest::from_offsets_in_pack(&index.entries, &pack.entries).unwrap_err(),
        Error::DanglingDeltaBase { pack_offset: 40 }
    );
}

#[test]
fn a_wrong_pack_checksum_ends_everything() {
    let (index, mut pack) = five_objects();
    let stored_before = pack.data[60..].to_vec();
    pack.data[79] ^= 0xff;
    let error = index.traverse_with_index(LENIENT, &pack).unwrap_err();
    match error {
        Error::PackMismatch { stored, computed } => {
            assert_eq!(&stored.bytes[..], &pack.data[60..]);
            assert_eq!(&computed.bytes[..], &stored_before[..]);
        }
        other => panic!("unexpected error {:?}", other),
    }
}

#[test]
fn an_object_that_cannot_be_decoded() {
    let (index, mut pack) = five_objects();
    pack.objects[4] = None;
    assert_eq!(
        index.traverse_with_index(STRICT, &pack).unwrap_err(),
        Error::DecodeFailure { pack_offset: 50, oid: id(5) }
    );
    let (_, outcome, skipped) = index.traverse_with_index(LENIENT, &pack).unwrap();
    assert_eq!(skipped, vec![Error::DecodeFailure { pack_offset: 50, oid: id(5) }]);
    assert_eq!(outcome.num_blobs, 2);
    assert_eq!(outcome.objects_per_chain_length.get(&2), None);
    assert_eq!(outcome.total_object_size, 710);
}

#[test]
fn an_entry_that_leaves_the_pack_is_fatal_even_when_lenient() {
    let (index, mut pack) = five_objects();
    pack.entries[2].data_offset = 41;
    assert_eq!(
        index.traverse_with_index(LENIENT, &pack).unwrap_err(),
        Error::OutOfRangeSlice { start: 41, end: 40 }
    );
    let index = File { entries: vec![IndexEntry { oid: id(1), pack_offset: 61, crc32: None }] };
    let pack = Pack {
        data: sealed(content(60)),
        entries: vec![entry(Header::Blob, 61, 1, 1)],
        objects: vec![Some(vec![7])],
    };
    assert_eq!(
        index.traverse_with_index(LENIENT, &pack).unwrap_err(),
        Error::OutOfRangeSlice { start: 61, end: 60 }
    );
}

#[test]
fn a_pack_too_short_for_its_checksum() {
    let index = File { entries: vec![] };
    let pack = Pack { data: vec![0; 19], entries: vec![], objects: vec![] };
    assert_eq!(
        index.traverse_with_index(STRICT, &pack).unwrap_err(),
        Error::OutOfRangeSlice { start: 0, end: 20 }
    );
}

#[test]
fn the_first_fatal_error_in_visiting_order_is_reported() {
    let (index, mut pack) = five_objects();
    pack.objects[1] = None;
    pack.objects[3] = None;
    assert_eq!(
        index.traverse_with_index(STRICT, &pack).unwrap_err(),
        Error::DecodeFailure { pack_offset: 40, oid: id(4) }
    );
}
