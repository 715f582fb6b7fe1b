//! Rows of a session log, and the projections the two pipelines work on.
//!
//! An identifier is carried as the 128-bit number whose big-endian bytes are
//! the sixteen bytes of the identifier, so the order of the numbers is the
//! order of the identifiers.

use vstd::prelude::*;
use vstd::std_specs::convert::FromSpecImpl;

verus! {

/// A valid row of a daily session log.
#[derive(Clone, Copy, Debug, PartialEq, Eq, Structural)]
pub struct Record {
    /// The user.
    pub user_id: u128,
    /// The session.
    pub session_id: u128,
    /// The camera the user chose.
    pub camera_id: u8,
    /// The number of pictures the user took.
    pub nb_pics: u8,
}

/// What the camera pipeline keeps of a row.
#[derive(Clone, Copy, Debug, PartialEq, Eq, Structural)]
pub struct CameraRecord {
    pub camera_id: u8,
    pub session_id: u128,
    pub nb_pics: u8,
}

impl From<Record> for CameraRecord {
    fn from(record: Record) -> (r: CameraRecord) {
        CameraRecord {
            camera_id: record.camera_id,
            session_id: record.session_id,
            nb_pics: record.nb_pics,
        }
    }
}

impl FromSpecImpl<Record> for CameraRecord {
    open spec fn obeys_from_spec() -> bool {
        true
    }

    open spec fn from_spec(record: Record) -> CameraRecord {
        CameraRecord {
            camera_id: record.camera_id,
            session_id: record.session_id,
            nb_pics: record.nb_pics,
        }
    }
}

impl CameraRecord {
    /// The order the camera pipeline sorts by: by session, then by camera.
    /// The number of pictures plays no part.
    pub open spec fn precedes(self, other: CameraRecord) -> bool {
        self.session_id < other.session_id || (self.session_id == other.session_id
            && self.camera_id < other.camera_id)
    }

    /// Whether two rows belong to one session and one camera.
    pub open spec fn same_group(self, other: CameraRecord) -> bool {
        self.session_id == other.session_id && self.camera_id == other.camera_id
    }

    /// Whether `self` sorts strictly before `other`.
    pub fn sorts_before(&self, other: &CameraRecord) -> (b: bool)
        ensures
            b == self.precedes(*other),
    {
        self.session_id < other.session_id || (self.session_id == other.session_id
            && self.camera_id < other.camera_id)
    }
}

/// What the user pipeline keeps of a row.
#[derive(Clone, Copy, Debug, PartialEq, Eq, Structural)]
pub struct UserRecord {
    pub user_id: u128,
    pub session_id: u128,
    pub nb_pics: u8,
}

impl From<Record> for UserRecord {
    fn from(record: Record) -> (r: UserRecord) {
        UserRecord {
            user_id: record.user_id,
            session_id: record.session_id,
            nb_pics: record.nb_pics,
        }
    }
}

impl FromSpecImpl<Record> for UserRecord {
    open spec fn obeys_from_spec() -> bool {
        true
    }

    open spec fn from_spec(record: Record) -> UserRecord {
        UserRecord {
            user_id: record.user_id,
            session_id: record.session_id,
            nb_pics: record.nb_pics,
        }
    }
}

impl UserRecord {
    /// Parts the key from the number of pictures.
    pub fn split(self) -> (r: (UserSessionRecord, u8))
        ensures
            r.0.user_id == self.user_id,
            r.0.session_id == self.session_id,
            r.1 == self.nb_pics,
    {
        (UserSessionRecord { user_id: self.user_id, session_id: self.session_id }, self.nb_pics)
    }
}

/// A user in a session: the key the user pipeline sums by.
#[derive(Clone, Copy, Debug, PartialEq, Eq, Structural)]
pub struct UserSessionRecord {
    pub user_id: u128,
    pub session_id: u128,
}

impl UserSessionRecord {
    /// The order of the keys: by user, then by session. It is the order of
    /// the thirty-two bytes of the two identifiers.
    pub open spec fn precedes(self, other: UserSessionRecord) -> bool {
        self.user_id < other.user_id || (self.user_id == other.user_id && self.session_id
            < other.session_id)
    }

    /// Whether `self` sorts strictly before `other`.
    pub fn sorts_before(&self, other: &UserSessionRecord) -> (b: bool)
        ensures
            b == self.precedes(*other),
    {
        self.user_id < other.user_id || (self.user_id == other.user_id && self.session_id
            < other.session_id)
    }
}

} // verus!
