use safari_stats::camera_extracting::{
    camera_totals, CameraGrouper, GroupError, SessionCameraTotal, MAX_GROUP_ROWS,
};
use safari_stats::camera_mapping::{
    camera_best_hundred_mapping_from_averages, merge_camera_best_avg_pics,
    CameraBestAvgPicsMapping, MergeError, SessionCameraAverage,
};
use safari_stats::camera_top::{CameraBestAvgPics, MAX_AVG_BITS};
use safari_stats::record::{CameraRecord, Record};

fn bits(avg: f32) -> u32 {
    avg.to_bits()
}

fn averages(board: &CameraBestAvgPics) -> Vec<f32> {
    board.avg_pics().iter().map(|b| f32::from_bits(*b)).collect()
}

fn average_of(total: &SessionCameraTotal) -> SessionCameraAverage {
    SessionCameraAverage {
        session_id: total.session_id,
        camera_id: total.camera_id,
        avg_bits: ((total.pics as f32) / (total.rows as f32)).to_bits(),
    }
}

#[test]
fn update_on_single_improvement_updates_on_improvement() {
    let mut camera_best_avg_pics = CameraBestAvgPics::default();
    let session_id = 42u128;
    let avg_num_pics = 2.0 as f32;
    camera_best_avg_pics.update_on_improvement(session_id, avg_num_pics.to_bits());
    let all = averages(&camera_best_avg_pics);
    let max_camera_avg_pics = all.iter().max_by(|x, y| x.partial_cmp(y).unwrap()).unwrap();
    assert_eq!(*max_camera_avg_pics, avg_num_pics);
}

#[test]
fn update_on_multiple_improvements_works() {
    let mut camera_best_avg_pics = CameraBestAvgPics::default();
    let mut session_ids = [1u128, 2u128, 3u128];
    let avg_pics = [1.0f32, 2.0, 3.0];
    for (session_id, avg_num_pics) in session_ids.iter().zip(avg_pics.iter()) {
        camera_best_avg_pics.update_on_improvement(*session_id, avg_num_pics.to_bits());
    }
    assert_eq!([3.0, 2.0, 1.0], averages(&camera_best_avg_pics)[..3]);
    session_ids.reverse();
    assert_eq!(session_ids, camera_best_avg_pics.sessions()[..3]);
}

#[test]
fn default_board_is_empty() {
    let board = CameraBestAvgPics::default();
    assert_eq!(board.sessions(), [0u128; 100]);
    assert_eq!(board.avg_pics(), [0u32; 100]);
}

#[test]
fn bit_patterns_order_like_the_averages() {
    let values = [0.0f32, 0.25, 1.0, 1.5, 2.0, 4.0, 255.0, f32::INFINITY];
    for pair in values.windows(2) {
        assert!(pair[0] < pair[1]);
        assert!(pair[0].to_bits() < pair[1].to_bits());
    }
    assert_eq!(f32::INFINITY.to_bits(), MAX_AVG_BITS);
}

#[test]
fn what_is_no_average_is_no_improvement() {
    let mut board = CameraBestAvgPics::default();
    assert!(!board.is_improvement(f32::NAN.to_bits()));
    assert!(!board.is_improvement((-1.0f32).to_bits()));
    assert!(!board.is_improvement((-0.0f32).to_bits()));
    assert!(!board.is_improvement(0.0f32.to_bits()));
    assert!(board.is_improvement(0.5f32.to_bits()));
    board.update_on_improvement(9, f32::NAN.to_bits());
    board.update_on_improvement(9, (-3.0f32).to_bits());
    assert_eq!(board.sessions(), [0u128; 100]);
}

#[test]
fn camera_top_with_fewer_than_hundred_sessions() {
    let s1 = 0x1111u128;
    let s2 = 0x2222u128;
    let records = vec![
        CameraRecord { camera_id: 7, session_id: s1, nb_pics: 3 },
        CameraRecord { camera_id: 7, session_id: s1, nb_pics: 5 },
        CameraRecord { camera_id: 7, session_id: s2, nb_pics: 2 },
    ];
    let totals = camera_totals(&records).unwrap();
    assert_eq!(
        totals,
        vec![
            SessionCameraTotal { session_id: s1, camera_id: 7, pics: 8, rows: 2 },
            SessionCameraTotal { session_id: s2, camera_id: 7, pics: 2, rows: 1 },
        ]
    );
    let avgs: Vec<SessionCameraAverage> = totals.iter().map(average_of).collect();
    let mapping = camera_best_hundred_mapping_from_averages(&avgs);
    assert_eq!(mapping.camera_ids(), vec![7u8]);
    let board = mapping.get(7).unwrap();
    assert_eq!(f32::from_bits(board.avg_pics()[0]), 4.0);
    assert_eq!(board.sessions()[0], s1);
    assert_eq!(f32::from_bits(board.avg_pics()[1]), 2.0);
    assert_eq!(board.sessions()[1], s2);
    for i in 2..100 {
        assert_eq!(board.sessions()[i], 0);
        assert_eq!(board.avg_pics()[i], 0);
    }
}

#[test]
fn strict_greater_tie_rule() {
    let mut mapping = CameraBestAvgPicsMapping::new();
    for session in 1..=100u128 {
        mapping.update_on_improvement(3, session, bits(1.0));
    }
    mapping.update_on_improvement(3, 1000, bits(1.0));
    let board = mapping.get(3).unwrap();
    let expected: Vec<u128> = (1..=100u128).collect();
    assert_eq!(board.sessions().to_vec(), expected);
    assert!(board.avg_pics().iter().all(|b| *b == bits(1.0)));
    assert!(!board.is_improvement(bits(1.0)));
    assert!(board.is_improvement(bits(1.5)));
}

#[test]
fn a_better_average_evicts_the_last_slot() {
    let mut board = CameraBestAvgPics::default();
    for session in 1..=100u128 {
        board.update_on_improvement(session, bits(1.0));
    }
    board.update_on_improvement(500, bits(2.0));
    assert_eq!(board.sessions()[0], 500);
    assert_eq!(board.sessions()[1], 1);
    assert_eq!(board.sessions()[99], 99);
    let all = averages(&board);
    for i in 0..99 {
        assert!(all[i] >= all[i + 1]);
    }
}

#[test]
fn averages_stay_descending() {
    let mut board = CameraBestAvgPics::default();
    let mut x: u32 = 12345;
    for session in 1..=1000u128 {
        x = x.wrapping_mul(1664525).wrapping_add(1013904223);
        let avg = ((x >> 8) % 2000) as f32 / 7.0;
        board.update_on_improvement(session, bits(avg));
    }
    let all = averages(&board);
    for i in 0..99 {
        assert!(all[i] >= all[i + 1]);
    }
}

#[test]
fn from_parts_accepts_boards_only() {
    let sessions = [5u128; 100];
    let mut avgs = [bits(1.0); 100];
    assert!(CameraBestAvgPics::from_parts(sessions, avgs).is_some());
    avgs[50] = bits(2.0);
    assert!(CameraBestAvgPics::from_parts(sessions, avgs).is_none());
    let mut avgs = [bits(1.0); 100];
    avgs[0] = f32::NAN.to_bits();
    assert!(CameraBestAvgPics::from_parts(sessions, avgs).is_none());
    let board = CameraBestAvgPics::from_parts([9u128; 100], [bits(3.0); 100]).unwrap();
    assert_eq!(board.sessions(), [9u128; 100]);
    assert_eq!(board.avg_pics(), [bits(3.0); 100]);
}

#[test]
fn merging_boards_keeps_the_best_of_both() {
    let mut a = CameraBestAvgPics::default();
    let mut b = CameraBestAvgPics::default();
    a.update_on_improvement(1, bits(5.0));
    a.update_on_improvement(2, bits(3.0));
    b.update_on_improvement(3, bits(4.0));
    b.update_on_improvement(4, bits(1.0));
    let mut ab = a;
    ab += b;
    assert_eq!(ab.sessions()[..5], [1, 3, 2, 4, 0]);
    assert_eq!(averages(&ab)[..5], [5.0, 4.0, 3.0, 1.0, 0.0]);
    let mut ba = b;
    ba.merge(&a);
    assert_eq!(averages(&ba), averages(&ab));
}

#[test]
fn merge_is_commutative_in_the_averages() {
    let mut a = CameraBestAvgPics::default();
    let mut b = CameraBestAvgPics::default();
    for session in 1..=80u128 {
        a.update_on_improvement(session, bits((session % 7) as f32 + 0.5));
        b.update_on_improvement(1000 + session, bits((session % 5) as f32 + 0.5));
    }
    let mut ab = a;
    ab.merge(&b);
    let mut ba = b;
    ba.merge(&a);
    assert_eq!(ab.avg_pics(), ba.avg_pics());
}

#[test]
fn empty_camera_merge() {
    let merged = merge_camera_best_avg_pics(Vec::new());
    match merged {
        Err(e) => {
            assert_eq!(e, MergeError::EmptyInput);
            assert_eq!(e.message(), "An empty vector was provided");
        }
        Ok(_) => panic!("an empty list was merged"),
    }
}

#[test]
fn merge_of_days_by_camera() {
    let mut day1 = CameraBestAvgPicsMapping::new();
    day1.update_on_improvement(1, 10, bits(2.0));
    day1.update_on_improvement(2, 11, bits(1.0));
    let mut day2 = CameraBestAvgPicsMapping::new();
    day2.update_on_improvement(1, 20, bits(3.0));
    day2.update_on_improvement(3, 21, bits(0.0));
    let merged = merge_camera_best_avg_pics(vec![day1, day2]).unwrap();
    assert_eq!(merged.camera_ids(), vec![1u8, 2, 3]);
    let one = merged.get(1).unwrap();
    assert_eq!(one.sessions()[..3], [20, 10, 0]);
    assert_eq!(averages(&one)[..3], [3.0, 2.0, 0.0]);
    assert_eq!(merged.get(2).unwrap().sessions()[0], 11);
    assert_eq!(merged.get(3).unwrap().sessions(), [0u128; 100]);
    assert!(merged.get(4).is_none());
}

#[test]
fn mapping_insert_replaces() {
    let mut mapping = CameraBestAvgPicsMapping::new();
    mapping.update_on_improvement(9, 1, bits(1.0));
    let mut board = CameraBestAvgPics::default();
    board.update_on_improvement(2, bits(7.0));
    mapping.insert(9, board);
    assert_eq!(mapping.get(9).unwrap().sessions()[0], 2);
    let mut other = CameraBestAvgPicsMapping::new();
    other.update_on_improvement(9, 3, bits(8.0));
    mapping += other;
    assert_eq!(mapping.get(9).unwrap().sessions()[..2], [3, 2]);
}

#[test]
fn grouper_hands_out_closed_groups() {
    let mut grouper = CameraGrouper::new();
    let r = |session_id: u128, camera_id: u8, nb_pics: u8| CameraRecord {
        camera_id,
        session_id,
        nb_pics,
    };
    assert_eq!(grouper.push(&r(1, 1, 4)), Ok(None));
    assert_eq!(grouper.push(&r(1, 1, 0)), Ok(None));
    assert_eq!(
        grouper.push(&r(1, 2, 255)),
        Ok(Some(SessionCameraTotal { session_id: 1, camera_id: 1, pics: 4, rows: 2 }))
    );
    assert_eq!(
        grouper.push(&r(2, 2, 1)),
        Ok(Some(SessionCameraTotal { session_id: 1, camera_id: 2, pics: 255, rows: 1 }))
    );
    assert_eq!(
        grouper.finish(),
        Some(SessionCameraTotal { session_id: 2, camera_id: 2, pics: 1, rows: 1 })
    );
    assert_eq!(CameraGrouper::new().finish(), None);
    assert_eq!(camera_totals(&Vec::new()), Ok(Vec::new()));
    assert!(MAX_GROUP_ROWS > 1 << 55);
    assert_eq!(GroupError::TooManyRows, GroupError::TooManyRows);
}

#[test]
fn camera_record_from_record() {
    let record = Record { user_id: 1, session_id: 2, camera_id: 3, nb_pics: 4 };
    let camera = CameraRecord::from(record);
    assert_eq!(camera, CameraRecord { camera_id: 3, session_id: 2, nb_pics: 4 });
    let other = CameraRecord { camera_id: 1, session_id: 3, nb_pics: 0 };
    assert!(camera.sorts_before(&other));
    assert!(!other.sorts_before(&camera));
    assert!(!camera.sorts_before(&camera));
}

#[test]
fn a_group_that_is_full_takes_no_more_rows() {
    let full = SessionCameraTotal { session_id: 1, camera_id: 2, pics: 3, rows: MAX_GROUP_ROWS };
    let mut grouper = CameraGrouper::with_open_group(full).unwrap();
    let row = CameraRecord { camera_id: 2, session_id: 1, nb_pics: 1 };
    assert_eq!(grouper.push(&row), Err(GroupError::TooManyRows));
    assert_eq!(grouper.push(&row), Err(GroupError::TooManyRows));
    let other = CameraRecord { camera_id: 3, session_id: 1, nb_pics: 1 };
    assert_eq!(grouper.push(&other), Ok(Some(full)));
    assert_eq!(
        grouper.finish(),
        Some(SessionCameraTotal { session_id: 1, camera_id: 3, pics: 1, rows: 1 })
    );
    let none = SessionCameraTotal { session_id: 1, camera_id: 2, pics: 0, rows: 0 };
    assert!(CameraGrouper::with_open_group(none).is_none());
    let many = SessionCameraTotal { session_id: 1, camera_id: 2, pics: 511, rows: 2 };
    assert!(CameraGrouper::with_open_group(many).is_none());
    let long = SessionCameraTotal { session_id: 1, camera_id: 2, pics: 0, rows: MAX_GROUP_ROWS + 1 };
    assert!(CameraGrouper::with_open_group(long).is_none());
}

#[test]
fn a_group_of_one_row_has_the_pictures_of_the_row_as_average() {
    let records = vec![CameraRecord { camera_id: 9, session_id: 5, nb_pics: 3 }];
    let totals = camera_totals(&records).unwrap();
    assert_eq!(totals, vec![SessionCameraTotal { session_id: 5, camera_id: 9, pics: 3, rows: 1 }]);
    assert_eq!(f32::from_bits(average_of(&totals[0]).avg_bits), 3.0);
}

#[test]
fn sessions_without_pictures_leave_an_empty_board_that_a_merge_fills() {
    let records = vec![
        CameraRecord { camera_id: 4, session_id: 1, nb_pics: 0 },
        CameraRecord { camera_id: 4, session_id: 2, nb_pics: 0 },
    ];
    let avgs: Vec<SessionCameraAverage> =
        camera_totals(&records).unwrap().iter().map(average_of).collect();
    let zeros = camera_best_hundred_mapping_from_averages(&avgs);
    assert_eq!(zeros.camera_ids(), vec![4u8]);
    assert_eq!(zeros.get(4).unwrap().sessions(), [0u128; 100]);
    assert_eq!(zeros.get(4).unwrap().avg_pics(), [0u32; 100]);
    let mut other = CameraBestAvgPicsMapping::new();
    other.update_on_improvement(4, 77, bits(1.5));
    let merged = merge_camera_best_avg_pics(vec![other, zeros]).unwrap();
    let board = merged.get(4).unwrap();
    assert_eq!(board.sessions()[..2], [77, 0]);
    assert_eq!(averages(&board)[..2], [1.5, 0.0]);
}

#[test]
fn every_slot_was_offered_for_its_camera() {
    let mut offers: Vec<SessionCameraAverage> = Vec::new();
    let mut x: u32 = 99;
    for session in 1..=2000u128 {
        x = x.wrapping_mul(1664525).wrapping_add(1013904223);
        offers.push(SessionCameraAverage {
            session_id: session,
            camera_id: (x >> 24) as u8 % 5,
            avg_bits: bits(((x >> 8) % 50) as f32 / 4.0),
        });
    }
    let mapping = camera_best_hundred_mapping_from_averages(&offers);
    for camera in mapping.camera_ids() {
        let board = mapping.get(camera).unwrap();
        for i in 0..100 {
            let slot = SessionCameraAverage {
                session_id: board.sessions()[i],
                camera_id: camera,
                avg_bits: board.avg_pics()[i],
            };
            assert!((slot.session_id == 0 && slot.avg_bits == 0) || offers.contains(&slot));
        }
        let all = averages(&board);
        for i in 0..99 {
            assert!(all[i] >= all[i + 1]);
        }
        // the hundred best averages of the camera are on the board
        let mut best: Vec<f32> = offers
            .iter()
            .filter(|o| o.camera_id == camera)
            .map(|o| f32::from_bits(o.avg_bits))
            .collect();
        best.sort_by(|a, b| b.partial_cmp(a).unwrap());
        best.truncate(100);
        assert_eq!(all[..best.len()], best[..]);
    }
}
