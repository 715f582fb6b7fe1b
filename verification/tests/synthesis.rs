use rand::SeedableRng;
use rand_distr::Distribution;
use rand_distr::Binomial;
use rand_pcg::Pcg64;
use safari_stats::synthesis::{
    assemble_trip, gen_camera_choices, generate_number_of_trips, generate_session,
    generate_teams, split_into_teams, ParticipantData, Session, Team, TeamData, TeamPics,
    TripData, MAX_TEAM_PICS,
};
use std::collections::HashSet;
use std::iter;

fn mock_teams() -> (Team, Team) {
    (Team { user_ids: [1, 2, 3, 4, 5] }, Team { user_ids: [6, 7, 8, 9, 10] })
}

fn mock_session() -> Session {
    Session { id: 1, teams: mock_teams() }
}

fn draw_session(rng: &mut Pcg64) -> Session {
    loop {
        if let Some(session) = generate_session(rng) {
            return session;
        }
    }
}

fn gen_pics_by_team(rng: &mut Pcg64, num_pics: &mut [u8]) {
    let bin = Binomial::new(5, 0.1).unwrap();
    let mut team_pics = TeamPics::new();
    for pics in num_pics.iter_mut() {
        if team_pics.is_full() {
            *pics = 0;
        } else {
            let mut drawn = bin.sample(rng) as u8;
            while !team_pics.take(drawn) {
                drawn = bin.sample(rng) as u8;
            }
            *pics = drawn;
        }
    }
}

fn generate_trip_data(session: &Session, rng: &mut Pcg64) -> TripData {
    let camera_ids = gen_camera_choices(rng);
    let mut num_pics = [0u8; 10];
    let (first, second) = num_pics.split_at_mut(5);
    gen_pics_by_team(rng, first);
    gen_pics_by_team(rng, second);
    assemble_trip(session, &camera_ids, &num_pics)
}

#[test]
fn unique_user_ids_team_gen() {
    let mut rng = Pcg64::seed_from_u64(2);
    let teams = draw_session(&mut rng).teams;
    let ids: HashSet<u128> =
        teams.0.user_ids.iter().chain(teams.1.user_ids.iter()).cloned().collect();
    assert_eq!(10, ids.len());
}

#[test]
fn some_pics() {
    let sessions: Vec<Session> = iter::repeat_with(mock_session).take(100).collect();
    let mut rng = Pcg64::seed_from_u64(2);
    let total_num_pics: u32 = sessions
        .iter()
        .map(|x| generate_trip_data(x, &mut rng))
        .map(|x| x.into_participants_data())
        .map(|data| data.into_iter().map(|x| x.num_pics as u32))
        .map(|x| -> u32 { x.sum() })
        .sum();
    assert!(total_num_pics > 0);
}

#[test]
fn team_never_pics_more_than_5_per_trip() {
    let sessions: Vec<Session> = iter::repeat_with(mock_session).take(100).collect();
    let mut rng = Pcg64::seed_from_u64(2);
    let first_team_trip_data_iter =
        sessions.iter().map(|x| generate_trip_data(x, &mut rng)).map(|x| x.teams.0);
    let mut pics_by_first_team_per_trip_iter = first_team_trip_data_iter
        .map(|x| -> u32 { x.participants.iter().map(|x| x.num_pics as u32).sum() });
    assert!(!pics_by_first_team_per_trip_iter.any(|pics_by_team_this_trip| pics_by_team_this_trip > 5));
}

#[test]
fn teams_need_ten_different_users() {
    let teams = split_into_teams(&vec![1, 2, 3, 4, 5, 6, 7, 8, 9, 10]).unwrap();
    assert_eq!(teams.0.user_ids, [1, 2, 3, 4, 5]);
    assert_eq!(teams.1.user_ids, [6, 7, 8, 9, 10]);
    assert!(split_into_teams(&vec![1, 2, 3, 4, 5, 6, 7, 8, 9, 1]).is_none());
    assert!(split_into_teams(&vec![1, 2, 3, 4, 5, 6, 7, 8, 9, 9]).is_none());
    assert!(split_into_teams(&vec![1, 2, 3, 4, 5, 6, 7, 8, 9]).is_none());
    assert!(split_into_teams(&vec![1, 2, 3, 4, 5, 6, 7, 8, 9, 10, 11]).is_none());
    assert!(split_into_teams(&Vec::new()).is_none());
}

#[test]
fn drawn_numbers_are_in_their_ranges() {
    let mut rng = Pcg64::seed_from_u64(7);
    for _ in 0..200 {
        let trips = generate_number_of_trips(&mock_session(), &mut rng);
        assert!((4..9).contains(&trips));
        let cameras = gen_camera_choices(&mut rng);
        let different: HashSet<u8> = cameras.iter().cloned().collect();
        assert_eq!(different.len(), 10);
        assert!(cameras.iter().all(|c| (1..=100).contains(c)));
        if let Some(teams) = generate_teams(&mut rng) {
            for id in teams.0.user_ids.iter().chain(teams.1.user_ids.iter()) {
                assert!((1..=40_000_000).contains(id));
            }
        }
    }
}

#[test]
fn a_team_takes_five_pictures_at_most() {
    let mut pics = TeamPics::new();
    assert_eq!(pics.taken(), 0);
    assert!(pics.accepts(5));
    assert!(!pics.accepts(6));
    assert!(pics.take(3));
    assert!(!pics.take(3));
    assert_eq!(pics.taken(), 3);
    assert!(!pics.is_full());
    assert!(pics.take(2));
    assert!(pics.is_full());
    assert!(pics.take(0));
    assert!(!pics.take(1));
    assert!(!pics.take(255));
    assert_eq!(pics.taken(), MAX_TEAM_PICS);
}

#[test]
fn rows_of_a_trip() {
    let cameras = [11, 12, 13, 14, 15, 16, 17, 18, 19, 20];
    let pics = [0, 1, 2, 0, 1, 5, 0, 0, 0, 0];
    let trip = assemble_trip(&mock_session(), &cameras, &pics);
    assert_eq!(trip.session_id, 1);
    assert_eq!(trip.teams.0.participants[2], ParticipantData::new(3, 2, 13));
    assert_eq!(trip.teams.1.participants[0], ParticipantData::new(6, 5, 16));
    let rows = trip.into_valid_rows();
    assert_eq!(rows.len(), 10);
    for (i, row) in rows.iter().enumerate() {
        assert_eq!(row.user_id, i as u128 + 1);
        assert_eq!(row.session_id, 1);
        assert_eq!(row.camera_id, cameras[i]);
        assert_eq!(row.nb_pics, pics[i]);
    }
    let team = TeamData::new(vec![ParticipantData::new(1, 2, 3)]);
    assert_eq!(team.participants.len(), 1);
}

#[test]
fn cameras_are_shuffled() {
    let mut rng = Pcg64::seed_from_u64(11);
    let first = gen_camera_choices(&mut rng);
    let second = gen_camera_choices(&mut rng);
    assert_ne!(first, [1, 2, 3, 4, 5, 6, 7, 8, 9, 10]);
    assert_ne!(first, second);
}
