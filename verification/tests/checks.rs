use pack_traverse::entry::EntryWithDefault;
use pack_traverse::forest::{index_of_id, index_of_offset, Forest};
use pack_traverse::index::{worker_count, File, Pack};
use pack_traverse::loose::{compute_id, encode_decimal, encode_header};
use pack_traverse::outcome::{digest_statistics, try_digest_statistics};
use pack_traverse::resolve::RootQueue;
use pack_traverse::pack::{check_entry, check_pack_checksum, end_of_entries, end_of_entry, process_entry, verify_pack_checksum};
use pack_traverse::types::{Checksum, Error, Header, IndexEntry, ObjectId, ObjectKind, PackEntry, SafetyCheck};

const PLAIN: SafetyCheck = SafetyCheck { strict: true, object_ids: false };
const WITH_IDS: SafetyCheck = SafetyCheck { strict: true, object_ids: true };
const LENIENT_WITH_IDS: SafetyCheck = SafetyCheck { strict: false, object_ids: true };

fn oid(n: u8) -> ObjectId {
    ObjectId { bytes: [n; 20] }
}

fn from_hex(hex: &str) -> ObjectId {
    let mut bytes = [0u8; 20];
    for i in 0..20 {
        bytes[i] = u8::from_str_radix(&hex[2 * i..2 * i + 2], 16).unwrap();
    }
    ObjectId { bytes }
}

fn nine_digits() -> (IndexEntry, PackEntry, Vec<u8>) {
    let mut data = b"123456789".to_vec();
    data.extend_from_slice(&[0u8; 20]);
    let index_entry = IndexEntry { oid: oid(1), pack_offset: 0, crc32: Some(0xCBF4_3926) };
    let pack_entry = PackEntry { header: Header::Blob, decompressed_size: 30, header_size: 1, data_offset: 1 };
    (index_entry, pack_entry, data)
}

fn item(kind: ObjectKind, object_size: u64, decompressed_size: u64, compressed_size: u64, level: u16) -> EntryWithDefault {
    EntryWithDefault {
        index_entry: IndexEntry { oid: oid(0), pack_offset: 0, crc32: None },
        object_kind: kind,
        object_size,
        decompressed_size,
        compressed_size,
        header_size: 2,
        level,
    }
}

#[test]
fn the_checksum_covers_the_entry_with_its_header() {
    let (index_entry, pack_entry, data) = nine_digits();
    let found =
        process_entry(PLAIN, &index_entry, &pack_entry, ObjectKind::Blob, 0, 9, &data, Some(&[7u8; 25][..])).unwrap();
    assert_eq!(
        found,
        EntryWithDefault {
            index_entry,
            object_kind: ObjectKind::Blob,
            object_size: 25,
            decompressed_size: 30,
            compressed_size: 8,
            header_size: 1,
            level: 0,
        }
    );
    let without_header = IndexEntry { crc32: Some(git_features::hash::crc32(b"23456789")), ..index_entry };
    assert_eq!(
        process_entry(PLAIN, &without_header, &pack_entry, ObjectKind::Blob, 0, 9, &data, Some(&[][..])),
        Err(Error::ChecksumMismatch {
            expected: Checksum::Crc32(git_features::hash::crc32(b"23456789")),
            actual: Checksum::Crc32(0xCBF4_3926),
            pack_offset: 0,
            oid: oid(1),
        })
    );
}

#[test]
fn the_checksum_stops_where_the_entry_ends() {
    let (index_entry, pack_entry, data) = nine_digits();
    assert_eq!(
        process_entry(PLAIN, &index_entry, &pack_entry, ObjectKind::Blob, 0, 8, &data, Some(&[][..])),
        Err(Error::ChecksumMismatch {
            expected: Checksum::Crc32(0xCBF4_3926),
            actual: Checksum::Crc32(git_features::hash::crc32(b"12345678")),
            pack_offset: 0,
            oid: oid(1),
        })
    );
}

#[test]
fn an_entry_without_a_recorded_checksum_passes() {
    let (index_entry, pack_entry, data) = nine_digits();
    let unchecked = IndexEntry { crc32: None, ..index_entry };
    let found = process_entry(PLAIN, &unchecked, &pack_entry, ObjectKind::Tag, 3, 9, &data, Some(&[1u8][..])).unwrap();
    assert_eq!(found.level, 3);
    assert_eq!(found.object_kind, ObjectKind::Tag);
    assert_eq!(found.object_size, 1);
}

#[test]
fn entries_are_judged_in_a_fixed_order() {
    let (index_entry, pack_entry, _) = nine_digits();
    let judge = |end: u64, pack_end: u64, data_offset: u64, size: Option<u64>, id: Option<ObjectId>, crc: u32| {
        check_entry(&index_entry, &PackEntry { data_offset, ..pack_entry }, ObjectKind::Blob, 0, end, pack_end, size, id, crc)
    };
    assert_eq!(judge(10, 9, 12, None, Some(oid(2)), 0), Err(Error::OutOfRangeSlice { start: 0, end: 10 }));
    assert_eq!(judge(9, 9, 12, None, Some(oid(2)), 0), Err(Error::OutOfRangeSlice { start: 12, end: 9 }));
    assert_eq!(judge(9, 9, 9, None, Some(oid(2)), 0), Err(Error::DecodeFailure { pack_offset: 0, oid: oid(1) }));
    assert_eq!(
        judge(9, 9, 9, Some(4), Some(oid(2)), 0),
        Err(Error::ChecksumMismatch {
            expected: Checksum::Id(oid(1)),
            actual: Checksum::Id(oid(2)),
            pack_offset: 0,
            oid: oid(1)
        })
    );
    assert_eq!(
        judge(9, 9, 9, Some(4), Some(oid(1)), 0),
        Err(Error::ChecksumMismatch {
            expected: Checksum::Crc32(0xCBF4_3926),
            actual: Checksum::Crc32(0),
            pack_offset: 0,
            oid: oid(1)
        })
    );
    let passed = judge(9, 9, 9, Some(4), None, 0xCBF4_3926).unwrap();
    assert_eq!(passed.compressed_size, 0);
    assert_eq!(passed.object_size, 4);
}

#[test]
fn errors_that_end_a_traversal() {
    let lenient = SafetyCheck { strict: false, object_ids: false };
    let mismatch =
        Error::ChecksumMismatch { expected: Checksum::Crc32(1), actual: Checksum::Crc32(2), pack_offset: 3, oid: oid(4) };
    let undecoded = Error::DecodeFailure { pack_offset: 3, oid: oid(4) };
    let outside = Error::OutOfRangeSlice { start: 1, end: 0 };
    let dangling = Error::DanglingDeltaBase { pack_offset: 9 };
    let pack = Error::PackMismatch { stored: oid(1), computed: oid(2) };
    assert!(mismatch.fatal_under(PLAIN) && undecoded.fatal_under(PLAIN));
    assert!(!mismatch.fatal_under(lenient) && !undecoded.fatal_under(lenient));
    for check in [PLAIN, lenient] {
        assert!(outside.fatal_under(check) && dangling.fatal_under(check) && pack.fatal_under(check));
    }
    assert!(PLAIN.fatal_decode_error());
    assert!(!lenient.fatal_decode_error());
}

#[test]
fn the_pack_checksum_is_the_sha1_of_its_content() {
    let abc = from_hex("a9993e364706816aba3e25717850c26c9cd0d89d");
    let mut data = b"abc".to_vec();
    data.extend_from_slice(&abc.bytes);
    assert_eq!(verify_pack_checksum(&data), Ok(abc));
    assert_eq!(end_of_entries(&data), 3);
    data[0] = b'b';
    assert_eq!(
        verify_pack_checksum(&data),
        Err(Error::PackMismatch { stored: abc, computed: from_hex("0fbe2a58568b4590569588e52ed6a7da4e91b6ab") })
    );
    assert_eq!(verify_pack_checksum(&data[..19]), Err(Error::OutOfRangeSlice { start: 0, end: 20 }));
    assert_eq!(end_of_entries(&data[..19]), 0);
    assert_eq!(check_pack_checksum(oid(3), oid(3)), Ok(oid(3)));
    assert_eq!(check_pack_checksum(oid(3), oid(4)), Err(Error::PackMismatch { stored: oid(3), computed: oid(4) }));
}

#[test]
fn object_ids_are_those_of_git() {
    assert_eq!(compute_id(ObjectKind::Blob, b""), from_hex("e69de29bb2d1d6434b8b29ae775ad8c2e48c5391"));
    assert_eq!(compute_id(ObjectKind::Tree, b""), from_hex("4b825dc642cb6eb9a060e54bf8d69288fbee4904"));
    assert_eq!(
        compute_id(ObjectKind::Blob, b"what is up, doc?"),
        from_hex("bd9dbf5aae1a3862dd1526723246b20206e5fc37")
    );
}

#[test]
fn object_headers_name_kind_and_size() {
    assert_eq!(encode_header(ObjectKind::Blob, 16), b"blob 16\0".to_vec());
    assert_eq!(encode_header(ObjectKind::Commit, 0), b"commit 0\0".to_vec());
    assert_eq!(encode_header(ObjectKind::Tree, 1234567890), b"tree 1234567890\0".to_vec());
    assert_eq!(encode_header(ObjectKind::Tag, 7), b"tag 7\0".to_vec());
    assert_eq!(encode_decimal(0), b"0".to_vec());
    assert_eq!(encode_decimal(10), b"10".to_vec());
    assert_eq!(encode_decimal(u64::MAX), b"18446744073709551615".to_vec());
}

fn two_blobs(first: ObjectId, second: ObjectId) -> (File, Pack) {
    let mut data = vec![9u8; 32];
    let mut hasher = git_features::hash::Sha1::default();
    hasher.update(&data);
    data.extend_from_slice(&hasher.digest());
    let index = File {
        entries: vec![
            IndexEntry { oid: first, pack_offset: 12, crc32: None },
            IndexEntry { oid: second, pack_offset: 22, crc32: None },
        ],
    };
    let pack = Pack {
        data,
        entries: vec![
            PackEntry { header: Header::Blob, decompressed_size: 0, header_size: 1, data_offset: 13 },
            PackEntry { header: Header::Blob, decompressed_size: 16, header_size: 1, data_offset: 23 },
        ],
        objects: vec![Some(vec![]), Some(b"what is up, doc?".to_vec())],
    };
    (index, pack)
}

#[test]
fn object_ids_are_verified_when_asked_for() {
    let empty = from_hex("e69de29bb2d1d6434b8b29ae775ad8c2e48c5391");
    let doc = from_hex("bd9dbf5aae1a3862dd1526723246b20206e5fc37");
    let (index, pack) = two_blobs(empty, doc);
    let (_, outcome, skipped) = index.traverse_with_index(WITH_IDS, &pack).unwrap();
    assert_eq!(outcome.num_blobs, 2);
    assert!(skipped.is_empty());

    let (index, pack) = two_blobs(empty, oid(7));
    let mismatch = Error::ChecksumMismatch {
        expected: Checksum::Id(oid(7)),
        actual: Checksum::Id(doc),
        pack_offset: 22,
        oid: oid(7),
    };
    assert_eq!(index.traverse_with_index(WITH_IDS, &pack).unwrap_err(), mismatch);
    let (_, outcome, skipped) = index.traverse_with_index(LENIENT_WITH_IDS, &pack).unwrap();
    assert_eq!(skipped, vec![mismatch]);
    assert_eq!(outcome.num_blobs, 1);
    assert_eq!(outcome.total_object_size, 0);
    let (_, outcome, _) = index.traverse_with_index(PLAIN, &pack).unwrap();
    assert_eq!(outcome.num_blobs, 2);
    assert_eq!(outcome.total_object_size, 16);
}

#[test]
fn an_unresolved_entry_has_the_null_id_and_no_measures() {
    let entry = EntryWithDefault::default();
    assert_eq!(entry.index_entry, IndexEntry { oid: ObjectId { bytes: [0; 20] }, pack_offset: 0, crc32: None });
    assert_eq!(entry.object_kind, ObjectKind::Tree);
    assert_eq!(
        (entry.object_size, entry.decompressed_size, entry.compressed_size, entry.header_size, entry.level),
        (0, 0, 0, 0, 0)
    );
}

#[test]
fn an_entry_made_from_an_index_entry_keeps_it() {
    let index_entry = IndexEntry { oid: oid(9), pack_offset: 77, crc32: Some(5) };
    let entry = EntryWithDefault::from(index_entry);
    assert_eq!(entry, EntryWithDefault { index_entry, ..EntryWithDefault::default() });
}

#[test]
fn statistics_add_up_and_average_rounds_down() {
    let items = vec![
        item(ObjectKind::Blob, 10, 20, 5, 0),
        item(ObjectKind::Blob, 11, 21, 6, 1),
        item(ObjectKind::Tag, 12, 22, 8, 1),
        item(ObjectKind::Commit, 14, 26, 9, 3),
    ];
    let outcome = digest_statistics(&items);
    assert_eq!(outcome.total_object_size, 47);
    assert_eq!(outcome.total_decompressed_entries_size, 89);
    assert_eq!(outcome.total_compressed_entries_size, 28);
    assert_eq!((outcome.num_blobs, outcome.num_tags, outcome.num_commits, outcome.num_trees), (2, 1, 1, 0));
    assert_eq!(outcome.average.object_size, 11);
    assert_eq!(outcome.average.decompressed_size, 22);
    assert_eq!(outcome.average.compressed_size, 7);
    assert_eq!(outcome.average.num_deltas, 1);
    assert_eq!(outcome.pack_size, 0);
    let levels: Vec<(u32, u32)> = outcome.objects_per_chain_length.iter().map(|(k, v)| (*k, *v)).collect();
    assert_eq!(levels, vec![(0, 1), (1, 2), (3, 1)]);
    assert_eq!(try_digest_statistics(&items), Some(outcome));
}

#[test]
fn statistics_of_nothing_are_zero() {
    let outcome = digest_statistics(&[]);
    assert_eq!(outcome.total_object_size, 0);
    assert_eq!(outcome.average.object_size, 0);
    assert_eq!(outcome.average.num_deltas, 0);
    assert!(outcome.objects_per_chain_length.is_empty());
    assert_eq!(try_digest_statistics(&[]), Some(outcome));
}

#[test]
fn statistics_that_do_not_fit_are_refused() {
    let large = vec![item(ObjectKind::Blob, u64::MAX, 0, 0, 0), item(ObjectKind::Blob, 1, 0, 0, 0)];
    assert_eq!(try_digest_statistics(&large), None);
    let fits = vec![item(ObjectKind::Blob, u64::MAX - 1, 0, 0, 0), item(ObjectKind::Blob, 1, 0, 0, 0)];
    assert_eq!(try_digest_statistics(&fits).unwrap().total_object_size, u64::MAX);
    assert_eq!(try_digest_statistics(&fits).unwrap().average.object_size, u64::MAX / 2);
}

#[test]
fn workers_are_counted() {
    assert_eq!(worker_count(None, 8, 10_000), 1);
    assert_eq!(worker_count(Some(4), 8, 10_000), 1);
    assert_eq!(worker_count(None, 8, 10_001), 8);
    assert_eq!(worker_count(Some(0), 8, 10_001), 8);
    assert_eq!(worker_count(Some(4), 8, 10_001), 4);
    assert_eq!(worker_count(Some(1), 8, 20_000), 1);
    assert_eq!(worker_count(None, 0, 20_000), 1);
}

#[test]
fn entries_are_found_by_offset_and_by_id() {
    let entries: Vec<IndexEntry> =
        [12u64, 20, 31, 45, 100].iter().map(|o| IndexEntry { oid: oid(*o as u8), pack_offset: *o, crc32: None }).collect();
    assert_eq!(index_of_offset(&entries, 5, 12), Some(0));
    assert_eq!(index_of_offset(&entries, 5, 100), Some(4));
    assert_eq!(index_of_offset(&entries, 4, 100), None);
    assert_eq!(index_of_offset(&entries, 5, 30), None);
    assert_eq!(index_of_offset(&entries, 0, 12), None);
    assert_eq!(index_of_id(&entries, 5, &oid(45)), Some(3));
    assert_eq!(index_of_id(&entries, 3, &oid(45)), None);
    assert_eq!(index_of_id(&entries, 5, &oid(46)), None);
    assert_eq!(end_of_entry(&entries, 1, 200), 31);
    assert_eq!(end_of_entry(&entries, 4, 200), 200);
    assert!(File { entries: entries.clone() }.is_sorted());
    let mut unsorted = entries;
    unsorted[2].pack_offset = 20;
    assert!(!File { entries: unsorted }.is_sorted());
    assert!(File { entries: vec![] }.is_sorted());
}

#[test]
fn ids_and_headers_tell_what_they_are() {
    assert!(oid(3).same_as(&oid(3)));
    assert!(!oid(3).same_as(&oid(4)));
    let mut almost = oid(3);
    almost.bytes[19] = 4;
    assert!(!oid(3).same_as(&almost));
    assert_eq!(Header::Commit.to_kind(), Some(ObjectKind::Commit));
    assert_eq!(Header::Tree.to_kind(), Some(ObjectKind::Tree));
    assert_eq!(Header::Blob.to_kind(), Some(ObjectKind::Blob));
    assert_eq!(Header::Tag.to_kind(), Some(ObjectKind::Tag));
    assert_eq!(Header::RefDelta { base_id: oid(1) }.to_kind(), None);
    assert_eq!(Header::OfsDelta { base_distance: 1 }.to_kind(), None);
}

#[test]
fn a_chain_too_long_for_its_level_gives_nothing() {
    let count = u16::MAX as usize + 2;
    let mut data = vec![0u8; 12 + count];
    let mut hasher = git_features::hash::Sha1::default();
    hasher.update(&data);
    data.extend_from_slice(&hasher.digest());
    let entries: Vec<IndexEntry> =
        (0..count).map(|i| IndexEntry { oid: oid(0), pack_offset: 12 + i as u64, crc32: None }).collect();
    let mut pack_entries: Vec<PackEntry> = (0..count)
        .map(|i| PackEntry {
            header: Header::OfsDelta { base_distance: 1 },
            decompressed_size: 0,
            header_size: 1,
            data_offset: 13 + i as u64,
        })
        .collect();
    pack_entries[0].header = Header::Blob;
    let forest = Forest::from_offsets_in_pack(&entries, &pack_entries).unwrap();
    assert_eq!(forest.nodes[count - 1].level, count - 1);
    assert!(!forest.levels_fit());
    let index = File { entries };
    let mut pack = Pack { data, entries: pack_entries, objects: vec![Some(vec![]); count] };
    assert_eq!(index.try_traverse_with_index(PLAIN, &pack), None);
    pack.entries[count - 1].header = Header::Tree;
    let (_, outcome, _) = index.try_traverse_with_index(PLAIN, &pack).unwrap().unwrap();
    assert_eq!(outcome.num_blobs, u16::MAX as u32 + 1);
    assert_eq!(outcome.num_trees, 1);
    assert_eq!(outcome.objects_per_chain_length.get(&(u16::MAX as u32)), Some(&1));
    assert_eq!(outcome.average.num_deltas, 32767);
}

#[test]
fn roots_are_handed_out_once_until_stopped() {
    let entries: Vec<IndexEntry> =
        [12u64, 20, 30, 40].iter().map(|o| IndexEntry { oid: oid(*o as u8), pack_offset: *o, crc32: None }).collect();
    let headers = [Header::Blob, Header::OfsDelta { base_distance: 8 }, Header::Tree, Header::Tag];
    let pack_entries: Vec<PackEntry> = headers
        .iter()
        .map(|header| PackEntry { header: *header, decompressed_size: 0, header_size: 1, data_offset: 0 })
        .collect();
    let forest = Forest::from_offsets_in_pack(&entries, &pack_entries).unwrap();
    let mut queue = RootQueue::new();
    assert_eq!(queue.take(&forest), Some(0));
    assert_eq!(queue.take(&forest), Some(2));
    assert_eq!(queue.take(&forest), Some(3));
    assert_eq!(queue.take(&forest), None);
    assert_eq!(queue, RootQueue { next: 3, stopped: false });
    let mut queue = RootQueue::new();
    assert_eq!(queue.take(&forest), Some(0));
    queue.stop();
    assert_eq!(queue.take(&forest), None);
    assert_eq!(queue, RootQueue { next: 1, stopped: true });
}
