//! What a made-up session log is put together from: sessions of two teams of
//! five users, trips of a session in which every user has a camera and takes
//! some pictures, and the rows of a trip.
//!
//! Nothing here draws a number. The numbers are drawn elsewhere and handed
//! in; here it is decided what is made of them.

use crate::record::Record;
use vstd::prelude::*;

verus! {

/// The most pictures a team takes in one trip.
pub const MAX_TEAM_PICS: u8 = 5;

/// Five users.
#[derive(Clone, Copy, Debug, PartialEq, Eq)]
pub struct Team {
    pub user_ids: [u128; 5],
}

/// A session of two teams.
#[derive(Clone, Copy, Debug, PartialEq, Eq)]
pub struct Session {
    pub id: u128,
    pub teams: (Team, Team),
}

/// No user occurs twice.
pub open spec fn distinct(ids: Seq<u128>) -> bool {
    forall|i: int, j: int| 0 <= i < j < ids.len() ==> ids[i] != ids[j]
}

/// Makes two teams of ten users: the first five and the last five. `None`
/// unless there are ten users and no user twice.
pub fn split_into_teams(user_ids: &Vec<u128>) -> (r: Option<(Team, Team)>)
    ensures
        r is Some <==> user_ids.len() == 10 && distinct(user_ids@),
        r is Some ==> forall|i: int|
            0 <= i < 5 ==> r.unwrap().0.user_ids[i] == user_ids[i] && r.unwrap().1.user_ids[i]
                == user_ids[i + 5],
{
    if user_ids.len() != 10 {
        return None;
    }
    let mut j: usize = 1;
    while j < 10
        invariant
            1 <= j <= 10,
            user_ids.len() == 10,
            forall|a: int, b: int| 0 <= a < b < j ==> user_ids[a] != user_ids[b],
        decreases 10 - j,
    {
        let mut i: usize = 0;
        while i < j
            invariant
                0 <= i <= j < 10,
                user_ids.len() == 10,
                forall|a: int| 0 <= a < i ==> user_ids[a] != user_ids[j as int],
            decreases j - i,
        {
            if user_ids[i] == user_ids[j] {
                return None;
            }
            i += 1;
        }
        j += 1;
    }
    let mut first: [u128; 5] = [0u128; 5];
    let mut second: [u128; 5] = [0u128; 5];
    let mut i: usize = 0;
    while i < 5
        invariant
            0 <= i <= 5,
            user_ids.len() == 10,
            forall|k: int| 0 <= k < i ==> first[k] == user_ids[k] && second[k] == user_ids[k + 5],
        decreases 5 - i,
    {
        first[i] = user_ids[i];
        second[i] = user_ids[i + 5];
        i += 1;
    }
    Some((Team { user_ids: first }, Team { user_ids: second }))
}

/// The generator of rand_pcg that the numbers are drawn from.
#[verifier::external_type_specification]
#[verifier::external_body]
pub struct ExPcg64(rand_pcg::Pcg64);

/// Counts the pictures a team takes in one trip, which are five at most.
pub struct TeamPics {
    taken: u8,
}

impl TeamPics {
    /// The pictures taken so far.
    pub closed spec fn view(self) -> u8 {
        self.taken
    }

    /// The invariant of the type: no more than five pictures are taken.
    #[verifier::type_invariant]
    pub closed spec fn inv(self) -> bool {
        self.taken <= MAX_TEAM_PICS
    }

    /// No picture taken yet.
    pub fn new() -> (r: Self)
        ensures
            r@ == 0,
    {
        TeamPics { taken: 0 }
    }

    /// The pictures taken so far.
    pub fn taken(&self) -> (r: u8)
        ensures
            r == self@,
            r <= MAX_TEAM_PICS,
    {
        proof {
            use_type_invariant(self);
        }
        self.taken
    }

    /// Whether the team has taken all the pictures it may; a user that comes
    /// now takes none.
    pub fn is_full(&self) -> (r: bool)
        ensures
            r == (self@ >= MAX_TEAM_PICS),
    {
        self.taken >= MAX_TEAM_PICS
    }

    /// Whether a user may take that many pictures; if not, another number is
    /// to be drawn.
    pub fn accepts(&self, num_pics: u8) -> (r: bool)
        ensures
            r == (num_pics + self@ <= MAX_TEAM_PICS),
    {
        proof {
            use_type_invariant(self);
        }
        num_pics <= MAX_TEAM_PICS - self.taken
    }

    /// Counts the pictures of a user, if the user may take that many.
    pub fn take(&mut self, num_pics: u8) -> (r: bool)
        ensures
            r == (num_pics + old(self)@ <= MAX_TEAM_PICS),
            final(self)@ == if r {
                (old(self)@ + num_pics) as u8
            } else {
                old(self)@
            },
            final(self)@ <= MAX_TEAM_PICS,
    {
        proof {
            use_type_invariant(&*self);
        }
        if num_pics <= MAX_TEAM_PICS - self.taken {
            self.taken = self.taken + num_pics;
            true
        } else {
            false
        }
    }
}

/// What a user does in a trip.
#[derive(Clone, Copy, Debug, PartialEq, Eq, Structural)]
pub struct ParticipantData {
    pub user_id: u128,
    pub num_pics: u8,
    pub camera_id: u8,
}

impl ParticipantData {
    pub fn new(user_id: u128, num_pics: u8, camera_id: u8) -> (r: Self)
        ensures
            r == (ParticipantData { user_id, num_pics, camera_id }),
    {
        Self { user_id, num_pics, camera_id }
    }
}

/// What the users of a team do in a trip.
#[derive(Debug)]
pub struct TeamData {
    pub participants: Vec<ParticipantData>,
}

impl TeamData {
    pub fn new(participants: Vec<ParticipantData>) -> (r: Self)
        ensures
            r.participants == participants,
    {
        Self { participants }
    }
}

/// A trip of a session.
#[derive(Debug)]
pub struct TripData {
    pub session_id: u128,
    pub teams: (TeamData, TeamData),
}

/// The row of a user in a trip of a session.
pub open spec fn row_of(session_id: u128, participant: ParticipantData) -> Record {
    Record {
        user_id: participant.user_id,
        session_id,
        camera_id: participant.camera_id,
        nb_pics: participant.num_pics,
    }
}

impl TripData {
    /// The users of both teams, those of the first team first.
    pub open spec fn participants(self) -> Seq<ParticipantData> {
        self.teams.0.participants@ + self.teams.1.participants@
    }

    /// What the users of both teams do, those of the first team first.
    pub fn into_participants_data(self) -> (participants: Vec<ParticipantData>)
        ensures
            participants@ == self.participants(),
    {
        let mut participants: Vec<ParticipantData> = Vec::new();
        let ghost all = self.participants();
        let mut i: usize = 0;
        while i < self.teams.0.participants.len()
            invariant
                0 <= i <= self.teams.0.participants.len(),
                participants@ == self.teams.0.participants@.take(i as int),
            decreases self.teams.0.participants.len() - i,
        {
            participants.push(self.teams.0.participants[i]);
            assert(participants@ =~= self.teams.0.participants@.take(i + 1));
            i += 1;
        }
        assert(self.teams.0.participants@.take(i as int) =~= self.teams.0.participants@);
        let mut j: usize = 0;
        while j < self.teams.1.participants.len()
            invariant
                0 <= j <= self.teams.1.participants.len(),
                participants@ == self.teams.0.participants@ + self.teams.1.participants@.take(
                    j as int,
                ),
            decreases self.teams.1.participants.len() - j,
        {
            participants.push(self.teams.1.participants[j]);
            assert(participants@ =~= self.teams.0.participants@
                + self.teams.1.participants@.take(j + 1));
            j += 1;
        }
        assert(self.teams.1.participants@.take(j as int) =~= self.teams.1.participants@);
        participants
    }

    /// The rows of the trip: one for each user, those of the first team
    /// first.
    pub fn into_valid_rows(self) -> (rows: Vec<Record>)
        ensures
            rows.len() == self.participants().len(),
            forall|i: int|
                0 <= i < rows.len() ==> rows[i] == row_of(self.session_id, self.participants()[i]),
    {
        let session_id = self.session_id;
        let ghost all = self.participants();
        let participants = self.into_participants_data();
        let mut rows: Vec<Record> = Vec::new();
        let mut i: usize = 0;
        while i < participants.len()
            invariant
                0 <= i <= participants.len(),
                participants@ == all,
                rows.len() == i,
                forall|k: int| 0 <= k < i ==> rows[k] == row_of(session_id, all[k]),
            decreases participants.len() - i,
        {
            let p = participants[i];
            rows.push(
                Record {
                    user_id: p.user_id,
                    session_id,
                    camera_id: p.camera_id,
                    nb_pics: p.num_pics,
                },
            );
            i += 1;
        }
        rows
    }
}

/// Puts a trip of a session together: each user of the two teams, in the
/// order of the teams, gets the camera and the number of pictures that stand
/// at the user's place.
pub fn assemble_trip(session: &Session, camera_ids: &[u8; 10], num_pics: &[u8; 10]) -> (trip:
    TripData)
    ensures
        trip.session_id == session.id,
        trip.teams.0.participants.len() == 5,
        trip.teams.1.participants.len() == 5,
        forall|i: int|
            0 <= i < 5 ==> trip.teams.0.participants[i] == (ParticipantData {
                user_id: session.teams.0.user_ids[i],
                num_pics: num_pics[i],
                camera_id: camera_ids[i],
            }) && trip.teams.1.participants[i] == (ParticipantData {
                user_id: session.teams.1.user_ids[i],
                num_pics: num_pics[i + 5],
                camera_id: camera_ids[i + 5],
            }),
{
    let mut first: Vec<ParticipantData> = Vec::new();
    let mut second: Vec<ParticipantData> = Vec::new();
    let mut i: usize = 0;
    while i < 5
        invariant
            0 <= i <= 5,
            first.len() == i,
            second.len() == i,
            forall|k: int|
                0 <= k < i ==> first[k] == (ParticipantData {
                    user_id: session.teams.0.user_ids[k],
                    num_pics: num_pics[k],
                    camera_id: camera_ids[k],
                }) && second[k] == (ParticipantData {
                    user_id: session.teams.1.user_ids[k],
                    num_pics: num_pics[k + 5],
                    camera_id: camera_ids[k + 5],
                }),
        decreases 5 - i,
    {
        first.push(ParticipantData::new(session.teams.0.user_ids[i], num_pics[i], camera_ids[i]));
        second.push(
            ParticipantData::new(session.teams.1.user_ids[i], num_pics[i + 5], camera_ids[i + 5]),
        );
        i += 1;
    }
    TripData { session_id: session.id, teams: (TeamData::new(first), TeamData::new(second)) }
}

/// The largest number a user is made of; the smallest is one.
pub const NUM_PLAYERS: u32 = 40_000_000;

/// The fewest trips of a session.
pub const MIN_TRIPS: u8 = 4;

/// The most trips of a session.
pub const MAX_TRIPS: u8 = 8;

/// The number of cameras; they are numbered from one.
pub const NUM_CAMERAS: u8 = 100;

/// Draws a number with rand's `Rng::sample` from `Uniform::new_inclusive`,
/// which draws from the closed range between the two bounds and panics if
/// the range is empty.
#[verifier::external_body]
fn draw_between(rng: &mut rand_pcg::Pcg64, low: u32, high: u32) -> (r: u32)
    requires
        low <= high,
    ensures
        low <= r <= high,
{
    rand::Rng::sample(rng, rand::distributions::Uniform::new_inclusive(low, high))
}

/// Draws an identifier with rand's `Rng::gen`. Nothing is claimed of it.
#[verifier::external_body]
fn draw_identifier(rng: &mut rand_pcg::Pcg64) -> (r: u128) {
    rand::Rng::gen(rng)
}

/// Draws a number with rand's `Rng::gen_range` from a range without its end,
/// which panics if the range is empty.
#[verifier::external_body]
fn draw_below(rng: &mut rand_pcg::Pcg64, low: u8, high: u8) -> (r: u8)
    requires
        low < high,
    ensures
        low <= r < high,
{
    rand::Rng::gen_range(rng, low..high)
}

/// Shuffles the cameras in place with rand's `SliceRandom::shuffle`: the same
/// cameras in some order.
#[verifier::external_body]
fn shuffle_cameras(camera_ids: &mut Vec<u8>, rng: &mut rand_pcg::Pcg64)
    ensures
        final(camera_ids)@.to_multiset() == old(camera_ids)@.to_multiset(),
{
    rand::seq::SliceRandom::shuffle(camera_ids.as_mut_slice(), rng);
}

/// The ten users of two teams, those of the first team first.
pub open spec fn users_of(teams: (Team, Team)) -> Seq<u128> {
    teams.0.user_ids@ + teams.1.user_ids@
}

/// Whether the numbers can be the users drawn for a session: ten numbers
/// from one to `NUM_PLAYERS`.
pub open spec fn is_draw(drawn: Seq<u128>) -> bool {
    drawn.len() == 10 && forall|i: int| 0 <= i < 10 ==> 1 <= #[trigger] drawn[i] <= NUM_PLAYERS
}

/// Whether the outcome is what is made of the users that were drawn: two
/// teams of them, in the order they were drawn, or nothing where a user was
/// drawn twice.
pub open spec fn is_teams_of(outcome: Option<(Team, Team)>, drawn: Seq<u128>) -> bool {
    is_draw(drawn) && match outcome {
        Some(teams) => distinct(drawn) && users_of(teams) == drawn,
        None => !distinct(drawn),
    }
}

/// The teams of a session that may be missing.
pub open spec fn teams_view(session: Option<Session>) -> Option<(Team, Team)> {
    match session {
        Some(session) => Some(session.teams),
        None => None,
    }
}

/// Draws ten users, each from one to `NUM_PLAYERS`, and makes two teams of
/// them in the order they were drawn. `None` if a user was drawn twice; then
/// one draws again.
pub fn generate_teams(rng: &mut rand_pcg::Pcg64) -> (r: Option<(Team, Team)>)
    ensures
        exists|drawn: Seq<u128>| #[trigger] is_teams_of(r, drawn),
        r is Some ==> distinct(users_of(r.unwrap())) && forall|i: int|
            0 <= i < 10 ==> 1 <= #[trigger] users_of(r.unwrap())[i] <= NUM_PLAYERS,
{
    let mut user_ids: Vec<u128> = Vec::new();
    let mut n: usize = 0;
    while n < 10
        invariant
            0 <= n <= 10,
            user_ids.len() == n,
            forall|i: int| 0 <= i < n ==> 1 <= #[trigger] user_ids[i] <= NUM_PLAYERS,
        decreases 10 - n,
    {
        let number: u32 = draw_between(rng, 1, NUM_PLAYERS);
        user_ids.push(number as u128);
        n += 1;
    }
    let teams = split_into_teams(&user_ids);
    proof {
        if teams is Some {
            assert(users_of(teams.unwrap()) =~= user_ids@);
        }
        assert(is_teams_of(teams, user_ids@));
    }
    teams
}

/// Draws a session: an identifier, and two teams as `generate_teams` draws
/// them. `None` if a user was drawn twice; then one draws again.
pub fn generate_session(rng: &mut rand_pcg::Pcg64) -> (r: Option<Session>)
    ensures
        exists|drawn: Seq<u128>| #[trigger] is_teams_of(teams_view(r), drawn),
        r is Some ==> distinct(users_of(r.unwrap().teams)) && forall|i: int|
            0 <= i < 10 ==> 1 <= #[trigger] users_of(r.unwrap().teams)[i] <= NUM_PLAYERS,
{
    let id = draw_identifier(rng);
    let teams = generate_teams(rng);
    let ghost drawn = choose|drawn: Seq<u128>| #[trigger] is_teams_of(teams, drawn);
    let session = match teams {
        Some(teams) => Some(Session { id, teams }),
        None => None,
    };
    proof {
        assert(is_teams_of(teams_view(session), drawn));
    }
    session
}

/// Draws the number of trips of a session: from four to eight.
pub fn generate_number_of_trips(_synthetic_session: &Session, rng: &mut rand_pcg::Pcg64) -> (r: u8)
    ensures
        MIN_TRIPS <= r <= MAX_TRIPS,
{
    draw_below(rng, MIN_TRIPS, MAX_TRIPS + 1)
}

/// Draws the cameras of the ten users of a trip: ten of the hundred cameras,
/// none of them twice.
pub fn gen_camera_choices(rng: &mut rand_pcg::Pcg64) -> (cameras: [u8; 10])
    ensures
        forall|i: int| 0 <= i < 10 ==> 1 <= #[trigger] cameras[i] <= NUM_CAMERAS,
        forall|i: int, j: int| 0 <= i < j < 10 ==> cameras[i] != cameras[j],
{
    let mut camera_ids: Vec<u8> = Vec::new();
    let mut c: u8 = 1;
    while c <= NUM_CAMERAS
        invariant
            1 <= c <= NUM_CAMERAS + 1,
            camera_ids.len() == c - 1,
            forall|i: int| 0 <= i < camera_ids.len() ==> camera_ids[i] == i + 1,
        decreases NUM_CAMERAS + 1 - c,
    {
        camera_ids.push(c);
        c += 1;
    }
    let ghost sorted = camera_ids@;
    shuffle_cameras(&mut camera_ids, rng);
    proof {
        broadcast use vstd::seq_lib::group_to_multiset_ensures;

        sorted.to_multiset_ensures();
        camera_ids@.to_multiset_ensures();
        assert(sorted.no_duplicates());
        sorted.lemma_multiset_has_no_duplicates();
        camera_ids@.lemma_multiset_has_no_duplicates_conv();
        assert(camera_ids.len() == 100);
        assert forall|i: int| 0 <= i < 100 implies 1 <= #[trigger] camera_ids[i] <= NUM_CAMERAS by {
            assert(camera_ids@.contains(camera_ids[i]));
            assert(sorted.to_multiset().count(camera_ids[i]) > 0);
            assert(sorted.contains(camera_ids[i]));
        }
    }
    let mut cameras: [u8; 10] = [1u8; 10];
    let mut i: usize = 0;
    while i < 10
        invariant
            0 <= i <= 10,
            camera_ids.len() == 100,
            forall|k: int| 0 <= k < i ==> cameras[k] == camera_ids[k],
        decreases 10 - i,
    {
        cameras[i] = camera_ids[i];
        i += 1;
    }
    cameras
}

} // verus!
