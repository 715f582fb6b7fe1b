use safari_stats::key_bytes::{bytes_less, id_from_bytes, id_to_bytes};
use safari_stats::record::{Record, UserRecord, UserSessionRecord};
use safari_stats::user_batching::{
    user_session_record_batch_fst_key, write_batch_fst_map, BatchError, UserBatcher,
};
use safari_stats::user_finalizing::{
    from_fst_sets_to_stats, FinalizeError, UserBestStats, UserFinalizer,
};
use safari_stats::user_pipeline::{user_day_fst_set, users_top_ten_of_days};
use safari_stats::user_sorting::{
    collect_sorted_splitted_user_records, sort_collect_splitted_user_records,
};
use safari_stats::user_storing::{
    capped_sum, from_batched_fst_maps_to_fst_set, StoreError, UserDayBuilder,
};
use safari_stats::user_top::{fst_set_keys_iter, UserBestSumPics};

fn key(user_id: u128, session_id: u128) -> UserSessionRecord {
    UserSessionRecord { user_id, session_id }
}

fn set_key(user: u128, sum: u8, session: u128) -> Vec<u8> {
    let mut k = user.to_be_bytes().to_vec();
    k.push(255 - sum);
    k.extend_from_slice(&session.to_be_bytes());
    k
}

fn set_keys_of(bytes: &[u8]) -> Vec<Vec<u8>> {
    let set = fst::Set::new(bytes).unwrap();
    set.stream().into_bytes()
}

#[test]
fn sort_collect_splitted_user_records_works() {
    let mut user_session_records_nb_pics_pairs = vec![
        (key(1, 100), 3u8),
        (key(2, 200), 2u8),
        (key(3, 100), 0u8),
        (key(2, 200), 1u8),
        (key(1, 100), 2u8),
        (key(1, 500), 4u8),
    ];

    let sorted_and_collected_pairs = vec![
        (key(1, 100), 5u8),
        (key(1, 500), 4u8),
        (key(2, 200), 3u8),
        (key(3, 100), 0u8),
    ];
    sort_collect_splitted_user_records(&mut user_session_records_nb_pics_pairs);
    assert_eq!(sorted_and_collected_pairs, user_session_records_nb_pics_pairs);
}

#[test]
fn collecting_stops_at_255() {
    let mut pairs = vec![(key(1, 1), 200u8), (key(1, 1), 100u8), (key(1, 1), 7u8), (key(1, 2), 1u8)];
    collect_sorted_splitted_user_records(&mut pairs);
    assert_eq!(pairs, vec![(key(1, 1), 255u8), (key(1, 2), 1u8)]);
    let mut none: Vec<(UserSessionRecord, u8)> = Vec::new();
    collect_sorted_splitted_user_records(&mut none);
    assert!(none.is_empty());
}

#[test]
fn collecting_joins_neighbours_only() {
    let mut pairs = vec![(key(1, 1), 1u8), (key(2, 1), 1u8), (key(1, 1), 1u8)];
    collect_sorted_splitted_user_records(&mut pairs);
    assert_eq!(pairs, vec![(key(1, 1), 1u8), (key(2, 1), 1u8), (key(1, 1), 1u8)]);
}

#[test]
fn dedup_and_sum_is_associative() {
    let a = vec![(key(2, 1), 3u8), (key(1, 1), 1u8), (key(2, 1), 4u8), (key(5, 5), 250u8)];
    let b = vec![(key(1, 1), 2u8), (key(3, 1), 9u8), (key(5, 5), 250u8), (key(1, 1), 1u8)];
    let mut whole: Vec<(UserSessionRecord, u8)> = a.iter().chain(b.iter()).cloned().collect();
    sort_collect_splitted_user_records(&mut whole);
    let mut ra = a.clone();
    sort_collect_splitted_user_records(&mut ra);
    let mut rb = b.clone();
    sort_collect_splitted_user_records(&mut rb);
    let mut parts: Vec<(UserSessionRecord, u8)> = ra.iter().chain(rb.iter()).cloned().collect();
    sort_collect_splitted_user_records(&mut parts);
    assert_eq!(whole, parts);
    assert_eq!(
        whole,
        vec![(key(1, 1), 4u8), (key(2, 1), 7u8), (key(3, 1), 9u8), (key(5, 5), 255u8)]
    );
}

#[test]
fn user_record_split() {
    let record = Record { user_id: 7, session_id: 8, camera_id: 9, nb_pics: 10 };
    let user = UserRecord::from(record);
    assert_eq!(user, UserRecord { user_id: 7, session_id: 8, nb_pics: 10 });
    assert_eq!(user.split(), (key(7, 8), 10u8));
    assert!(key(1, 9).sorts_before(&key(2, 0)));
    assert!(key(1, 1).sorts_before(&key(1, 2)));
    assert!(!key(1, 1).sorts_before(&key(1, 1)));
}

#[test]
fn identifiers_as_bytes() {
    let id = 0x0102030405060708090a0b0c0d0e0f10u128;
    assert_eq!(id_to_bytes(id), id.to_be_bytes());
    assert_eq!(id_to_bytes(0), [0u8; 16]);
    assert_eq!(id_to_bytes(u128::MAX), [255u8; 16]);
    let mut bytes = vec![9u8];
    bytes.extend_from_slice(&id.to_be_bytes());
    assert_eq!(id_from_bytes(&bytes, 1), id);
    assert!(bytes_less(&[1, 2], &[1, 3]));
    assert!(bytes_less(&[1, 2], &[1, 2, 0]));
    assert!(!bytes_less(&[1, 2], &[1, 2]));
    assert!(!bytes_less(&[2], &[1, 9]));
    assert!(bytes_less(&[], &[0]));
    assert!(!bytes_less(&[], &[]));
}

#[test]
fn batch_key_is_user_then_session() {
    let k = user_session_record_batch_fst_key(key(1, 2));
    let mut expected = [0u8; 32];
    expected[15] = 1;
    expected[31] = 2;
    assert_eq!(k, expected);
}

#[test]
fn batch_map_holds_keys_and_sums() {
    let mut batch = vec![(key(1, 100), 5u8), (key(1, 500), 4u8), (key(2, 200), 255u8)];
    let bytes = write_batch_fst_map(&mut batch).unwrap();
    assert!(batch.is_empty());
    let map = fst::Map::new(bytes).unwrap();
    assert_eq!(map.len(), 3);
    assert_eq!(map.get(user_session_record_batch_fst_key(key(1, 100))), Some(5));
    assert_eq!(map.get(user_session_record_batch_fst_key(key(1, 500))), Some(4));
    assert_eq!(map.get(user_session_record_batch_fst_key(key(2, 200))), Some(255));
}

#[test]
fn batch_map_refuses_unsorted_rows() {
    let mut batch = vec![(key(2, 1), 1u8), (key(1, 1), 1u8)];
    assert_eq!(write_batch_fst_map(&mut batch), Err(BatchError::KeyOutOfOrder));
    assert!(batch.is_empty());
    let mut twice = vec![(key(1, 1), 1u8), (key(1, 1), 1u8)];
    assert_eq!(write_batch_fst_map(&mut twice), Err(BatchError::KeyOutOfOrder));
    let mut none: Vec<(UserSessionRecord, u8)> = Vec::new();
    assert!(write_batch_fst_map(&mut none).is_ok());
}

#[test]
fn batcher_spills_at_the_threshold() {
    let mut batcher = UserBatcher::new(4, 2);
    assert!(batcher.push((key(1, 1), 1)).is_none());
    assert!(batcher.push((key(1, 1), 1)).is_none());
    assert!(batcher.push((key(1, 1), 1)).is_none());
    assert!(batcher.push((key(1, 1), 1)).is_none());
    assert_eq!(batcher.pending_len(), 4);
    // the four rows sum up to one, which is below the threshold: nothing is written
    assert!(batcher.push((key(2, 1), 1)).is_none());
    assert_eq!(batcher.pending_len(), 2);
    assert_eq!(batcher.batch_counter(), 0);
    assert!(batcher.push((key(3, 1), 1)).is_none());
    assert!(batcher.push((key(4, 1), 1)).is_none());
    // four rows of four keys: written
    let spilled = batcher.push((key(5, 1), 1)).unwrap();
    assert_eq!(batcher.batch_counter(), 1);
    assert_eq!(batcher.pending_len(), 1);
    let map = fst::Map::new(spilled).unwrap();
    assert_eq!(map.len(), 4);
    assert_eq!(map.get(user_session_record_batch_fst_key(key(1, 1))), Some(4));
    let last = batcher.finish().unwrap();
    assert_eq!(batcher.batch_counter(), 2);
    assert_eq!(fst::Map::new(last).unwrap().len(), 1);
    assert!(batcher.finish().is_none());
    assert_eq!(batcher.batch_counter(), 2);
}

#[test]
fn user_board_orders_by_sum_then_session() {
    let mut board = UserBestSumPics::default();
    assert_eq!(board.sums(), [-1i16; 10]);
    board.update_user_id(77);
    board.update_on_improvement(30, 5);
    board.update_on_improvement(10, 5);
    board.update_on_improvement(20, 5);
    board.update_on_improvement(40, 9);
    board.update_on_improvement(50, 0);
    assert_eq!(board.user_id(), 77);
    assert_eq!(board.session_ids()[..6], [40, 10, 20, 30, 50, 0]);
    assert_eq!(board.sums()[..6], [9, 5, 5, 5, 0, -1]);
    assert!(board.is_improvement(0));
    board.clear();
    assert_eq!(board.user_id(), 0);
    assert_eq!(board.sums(), [-1i16; 10]);
}

#[test]
fn user_board_keeps_ten() {
    let mut board = UserBestSumPics::default();
    for s in 1..=10u8 {
        board.update_on_improvement(s as u128, s);
    }
    assert!(!board.is_improvement(1));
    assert!(board.is_improvement(2));
    board.update_on_improvement(99, 1);
    assert_eq!(board.session_ids(), [10, 9, 8, 7, 6, 5, 4, 3, 2, 1]);
    board.update(100, 7);
    assert_eq!(board.session_ids(), [10, 9, 8, 7, 100, 6, 5, 4, 3, 2]);
    assert_eq!(board.sums(), [10, 9, 8, 7, 7, 6, 5, 4, 3, 2]);
}

#[test]
fn set_keys_put_255_less_the_sum_in_the_middle() {
    let mut board = UserBestSumPics::default();
    board.update_user_id(3);
    board.update_on_improvement(8, 4);
    board.update_on_improvement(9, 6);
    board.update_on_improvement(7, 4);
    let keys = fst_set_keys_iter(&board);
    assert_eq!(keys, vec![set_key(3, 6, 9), set_key(3, 4, 7), set_key(3, 4, 8)]);
    for k in keys.iter() {
        assert_eq!(k.len(), 33);
    }
    assert_eq!(keys[0][16], 255 - 6);
    let mut sorted = keys.clone();
    sorted.sort();
    assert_eq!(sorted, keys);
    assert!(fst_set_keys_iter(&UserBestSumPics::default()).is_empty());
}

#[test]
fn capped_sum_stops_at_255() {
    assert_eq!(capped_sum(&[]), 0);
    assert_eq!(capped_sum(&[1, 2, 3]), 6);
    assert_eq!(capped_sum(&[200, 55]), 255);
    assert_eq!(capped_sum(&[200, 56]), 255);
    assert_eq!(capped_sum(&[u64::MAX, u64::MAX]), 255);
}

#[test]
fn day_builder_flushes_on_user_change() {
    let mut day = UserDayBuilder::new();
    let k = |u: u128, s: u128| user_session_record_batch_fst_key(key(u, s)).to_vec();
    assert_eq!(day.feed(&k(1, 5), &[2, 3]), Ok(Vec::new()));
    assert_eq!(day.feed(&k(1, 6), &[9]), Ok(Vec::new()));
    assert_eq!(day.feed(&k(2, 1), &[1]), Ok(vec![set_key(1, 9, 6), set_key(1, 5, 5)]));
    assert_eq!(day.feed(&[1, 2, 3], &[1]), Err(StoreError::MalformedKey));
    assert_eq!(day.finish(), vec![set_key(2, 1, 1)]);
    assert!(UserDayBuilder::new().finish().is_empty());
}

#[test]
fn the_user_zero_is_never_stored() {
    let mut day = UserDayBuilder::new();
    let k = |u: u128, s: u128| user_session_record_batch_fst_key(key(u, s)).to_vec();
    assert_eq!(day.feed(&k(0, 5), &[2]), Ok(Vec::new()));
    assert_eq!(day.feed(&k(1, 5), &[2]), Ok(Vec::new()));
    assert_eq!(day.finish(), vec![set_key(1, 2, 5)]);
    let pairs = vec![(key(0, 5), 2u8)];
    let bytes = user_day_fst_set(&pairs, 10, 5).unwrap();
    assert!(set_keys_of(&bytes).is_empty());
}

#[test]
fn sums_are_joined_across_batches() {
    let mut first = vec![(key(1, 1), 100u8), (key(1, 2), 3u8)];
    let mut second = vec![(key(1, 1), 100u8), (key(2, 1), 1u8)];
    let a = write_batch_fst_map(&mut first).unwrap();
    let b = write_batch_fst_map(&mut second).unwrap();
    let bytes = from_batched_fst_maps_to_fst_set(&vec![a.as_slice(), b.as_slice()]).unwrap();
    assert_eq!(
        set_keys_of(&bytes),
        vec![set_key(1, 200, 1), set_key(1, 3, 2), set_key(2, 1, 1)]
    );
    let none: Vec<&[u8]> = Vec::new();
    let empty = from_batched_fst_maps_to_fst_set(&none).unwrap();
    assert!(set_keys_of(&empty).is_empty());
}

#[test]
fn session_sum_across_batch_boundary() {
    let mut pairs: Vec<(UserSessionRecord, u8)> = Vec::new();
    for i in 0..200u32 {
        pairs.push((key(7, 9), 1));
        // other sessions in between, so that the batches are written out
        pairs.push((key(1000 + i as u128, 1), 1));
    }
    let bytes = user_day_fst_set(&pairs, 50, 10).unwrap();
    let keys = set_keys_of(&bytes);
    assert!(keys.contains(&set_key(7, 200, 9)));
    assert_eq!(keys.len(), 201);
    let whole = user_day_fst_set(&pairs, 1000, 1000).unwrap();
    assert_eq!(set_keys_of(&whole), keys);
}

#[test]
fn a_sum_beyond_255_stops_there() {
    let pairs: Vec<(UserSessionRecord, u8)> = (0..300).map(|_| (key(7, 9), 1u8)).collect();
    let bytes = user_day_fst_set(&pairs, 64, 1).unwrap();
    assert_eq!(set_keys_of(&bytes), vec![set_key(7, 255, 9)]);
}

#[test]
fn a_day_keeps_the_ten_best_of_a_user() {
    let mut pairs: Vec<(UserSessionRecord, u8)> = Vec::new();
    for s in 1..=15u8 {
        pairs.push((key(4, s as u128), s));
        pairs.push((key(4, s as u128), 1));
    }
    pairs.push((key(5, 1), 0));
    let bytes = user_day_fst_set(&pairs, 8, 4).unwrap();
    let mut expected: Vec<Vec<u8>> = (6..=15u8).rev().map(|s| set_key(4, s + 1, s as u128)).collect();
    expected.push(set_key(5, 0, 1));
    assert_eq!(set_keys_of(&bytes), expected);
}

#[test]
fn user_top_ten_merge_across_days() {
    let u = 0xabcdu128;
    let (sa, sb, sc) = (1u128, 2u128, 3u128);
    let day_a = vec![(key(u, sa), 5u8), (key(u, sb), 4u8)];
    let day_b = vec![(key(u, sa), 2u8), (key(u, sc), 6u8)];
    let stats = users_top_ten_of_days(&vec![day_a, day_b], 100, 50).unwrap();
    assert_eq!(
        stats,
        vec![UserBestStats {
            user_id: u,
            session_id_num_pics_pairs: vec![(sc, 6), (sa, 5), (sb, 4), (sa, 2)],
        }]
    );
}

#[test]
fn the_week_keeps_ten_pairs_of_a_user() {
    let mut days: Vec<Vec<(UserSessionRecord, u8)>> = Vec::new();
    for d in 0..3u8 {
        let mut day = Vec::new();
        for s in 0..6u8 {
            day.push((key(1, (d * 10 + s) as u128), d * 10 + s));
        }
        day.push((key(2, d as u128), 1));
        days.push(day);
    }
    let stats = users_top_ten_of_days(&days, 4, 2).unwrap();
    assert_eq!(stats.len(), 2);
    assert_eq!(stats[0].user_id, 1);
    let expected: Vec<(u128, u8)> =
        vec![25, 24, 23, 22, 21, 20, 15, 14, 13, 12].into_iter().map(|s| (s as u128, s)).collect();
    assert_eq!(stats[0].session_id_num_pics_pairs, expected);
    assert_eq!(stats[1].session_id_num_pics_pairs, vec![(0, 1), (1, 1), (2, 1)]);
    let no_days: Vec<Vec<(UserSessionRecord, u8)>> = Vec::new();
    assert!(users_top_ten_of_days(&no_days, 4, 2).unwrap().is_empty());
}

#[test]
fn finalizer_reads_keys() {
    let mut finalizer = UserFinalizer::new();
    assert_eq!(finalizer.feed(&set_key(1, 9, 4)), Ok(None));
    assert_eq!(finalizer.feed(&set_key(1, 3, 2)), Ok(None));
    assert_eq!(finalizer.feed(&[0u8; 32]), Err(FinalizeError::MalformedKey));
    assert_eq!(
        finalizer.feed(&set_key(2, 0, 1)),
        Ok(Some(UserBestStats { user_id: 1, session_id_num_pics_pairs: vec![(4, 9), (2, 3)] }))
    );
    assert_eq!(
        finalizer.finish(),
        Some(UserBestStats { user_id: 2, session_id_num_pics_pairs: vec![(1, 0)] })
    );
    assert_eq!(UserFinalizer::new().finish(), None);
}

#[test]
fn stored_sets_are_read_together() {
    let day1 = user_day_fst_set(&vec![(key(1, 1), 3u8), (key(2, 1), 1u8)], 10, 5).unwrap();
    let day2 = user_day_fst_set(&vec![(key(1, 2), 4u8)], 10, 5).unwrap();
    let stats = from_fst_sets_to_stats(&vec![day1.as_slice(), day2.as_slice()]).unwrap();
    assert_eq!(
        stats,
        vec![
            UserBestStats { user_id: 1, session_id_num_pics_pairs: vec![(2, 4), (1, 3)] },
            UserBestStats { user_id: 2, session_id_num_pics_pairs: vec![(1, 1)] },
        ]
    );
}

#[test]
fn stats_line_format() {
    let stats = UserBestStats {
        user_id: 0x0123456789abcdef0123456789abcdefu128,
        session_id_num_pics_pairs: vec![(1, 200), (0xff, 7), (2, 0)],
    };
    assert_eq!(
        stats.to_line(),
        "01234567-89ab-cdef-0123-456789abcdef|00000000-0000-0000-0000-000000000001:200,00000000-0000-0000-0000-0000000000ff:7,00000000-0000-0000-0000-000000000002:0,"
    );
    let mut none = UserBestStats::default();
    assert_eq!(none.to_line(), "00000000-0000-0000-0000-000000000000|");
    none.update_user_id(5);
    none.push_session_pics_pair(6, 7);
    assert_eq!(none, UserBestStats { user_id: 5, session_id_num_pics_pairs: vec![(6, 7)] });
    none.clear();
    assert_eq!(none, UserBestStats::default());
}

#[test]
fn the_user_board_stays_ordered() {
    let mut board = UserBestSumPics::default();
    let mut x: u32 = 4242;
    for _ in 0..500 {
        x = x.wrapping_mul(1664525).wrapping_add(1013904223);
        let session = ((x >> 16) % 40) as u128;
        let sum = ((x >> 8) % 6) as u8;
        board.update_on_improvement(session, sum);
        let sums = board.sums();
        let sessions = board.session_ids();
        for i in 0..9 {
            assert!(sums[i] >= sums[i + 1]);
            if sums[i] == sums[i + 1] && sums[i] >= 0 {
                assert!(sessions[i] <= sessions[i + 1]);
            }
        }
    }
}

#[test]
fn a_day_set_holds_the_ten_best_of_every_user() {
    let mut pairs: Vec<(UserSessionRecord, u8)> = Vec::new();
    let mut x: u32 = 7;
    for _ in 0..3000 {
        x = x.wrapping_mul(1664525).wrapping_add(1013904223);
        let user = ((x >> 20) % 9) as u128;
        let session = ((x >> 10) % 60) as u128;
        let pics = ((x >> 4) % 6) as u8;
        pairs.push((key(user, session), pics));
    }
    // by hand: sum up by user and session, keep the ten best of each user
    let mut sums: std::collections::BTreeMap<(u128, u128), u32> = std::collections::BTreeMap::new();
    for (k, pics) in pairs.iter() {
        *sums.entry((k.user_id, k.session_id)).or_insert(0) += *pics as u32;
    }
    let mut expected: Vec<Vec<u8>> = Vec::new();
    for user in 1..9u128 {
        let mut of_user: Vec<(u8, u128)> = sums
            .iter()
            .filter(|((u, _), _)| *u == user)
            .map(|((_, s), total)| ((*total).min(255) as u8, *s))
            .collect();
        of_user.sort_by(|a, b| b.0.cmp(&a.0).then(a.1.cmp(&b.1)));
        of_user.truncate(10);
        for (sum, session) in of_user {
            expected.push(set_key(user, sum, session));
        }
    }
    for (capacity, threshold) in [(7usize, 3usize), (100, 50), (5000, 2500), (1, 1), (0, 0)] {
        let bytes = user_day_fst_set(&pairs, capacity, threshold).unwrap();
        assert_eq!(set_keys_of(&bytes), expected);
    }
}

#[test]
fn two_hundred_thousand_rows_of_one_session() {
    let pairs: Vec<(UserSessionRecord, u8)> = (0..200_000).map(|_| (key(7, 9), 1u8)).collect();
    // the batch is written out in the middle of the rows
    let mut batcher = UserBatcher::new(100_000, 1);
    let mut batches: Vec<Vec<u8>> = Vec::new();
    for pair in pairs.iter() {
        if let Some(bytes) = batcher.push(*pair) {
            batches.push(bytes);
        }
    }
    if let Some(bytes) = batcher.finish() {
        batches.push(bytes);
    }
    assert_eq!(batches.len(), 2);
    assert_eq!(batcher.batch_counter(), 2);
    let slices: Vec<&[u8]> = batches.iter().map(|b| b.as_slice()).collect();
    let bytes = from_batched_fst_maps_to_fst_set(&slices).unwrap();
    // the sum of the session stops at 255
    assert_eq!(set_keys_of(&bytes), vec![set_key(7, 255, 9)]);
    let stats = users_top_ten_of_days(&vec![pairs], 100_000, 1).unwrap();
    assert_eq!(stats.len(), 1);
    assert_eq!(stats[0].to_line(), "00000000-0000-0000-0000-000000000007|00000000-0000-0000-0000-000000000009:255,");
}
