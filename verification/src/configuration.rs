//! Where the daily summaries are kept and how the files of the two pipelines
//! are named.

use crate::dates::{
    days_view, is_stamp_of_day, is_week_until, last_seven_days_ymd, matches_ymd_pattern,
    stamp_view, stamps_of, today_ymd, DateStamp,
};
use crate::files::{
    are_files_of_week, dated_file_name, is_file_of_day, path_view, paths_view, FilePath,
};
use vstd::prelude::*;
use vstd::string::StringExecFns;

verus! {

/// Names of the text files that hold, for each camera, its hundred best
/// session averages of the last seven days.
pub struct DailyCameraBestAvgPicsFilesConfig;

impl DailyCameraBestAvgPicsFilesConfig {
    pub const FILE_PREFIX: &'static str = "camera_top100_";

    pub const FILE_EXTENSION: &'static str = ".txt";
}

/// Where the camera summary of a day is stored.
pub struct SerializationFilesConfig;

impl SerializationFilesConfig {
    /// The directory of the stored camera summaries. Nothing but this program
    /// is meant to read them; those older than seven days may be deleted.
    pub const SERIALIZATION_DIRECTORY_PATH: &'static str = "./serialized_camera_stats";

    /// What the name of a stored camera summary begins with; the stamp of its
    /// day follows.
    pub const SERIALIZATION_OPERATOR_PREFIX: &'static str = "camera-top-100-pics-average-";

    /// The directory of the stored camera summaries.
    pub fn serialization_directory() -> (r: String)
        ensures
            r@ == "./serialized_camera_stats"@,
    {
        String::from_str(Self::SERIALIZATION_DIRECTORY_PATH)
    }

    /// The file of the stored camera summary of a day.
    pub fn serialization_file_from_datestamp(datestamp: DateStamp) -> (r: FilePath)
        ensures
            r.directory@ == "./serialized_camera_stats"@,
            r.file_name@ == "camera-top-100-pics-average-"@ + datestamp@,
    {
        let file_name = dated_file_name(Self::SERIALIZATION_OPERATOR_PREFIX, &datestamp, "");
        proof {
            reveal_strlit("");
            assert(file_name@ =~= "camera-top-100-pics-average-"@ + datestamp@);
        }
        FilePath { directory: Self::serialization_directory(), file_name }
    }

    /// The files of the stored camera summaries of the given days, in the
    /// order of the days.
    pub fn serialized_file_paths(days: Vec<DateStamp>) -> (r: Vec<FilePath>)
        ensures
            r.len() == days.len(),
            forall|i: int|
                0 <= i < r.len() ==> (#[trigger] r[i]).directory@ == "./serialized_camera_stats"@
                    && r[i].file_name@ == "camera-top-100-pics-average-"@ + days[i]@
                    && matches_ymd_pattern(days[i]@),
    {
        let mut paths: Vec<FilePath> = Vec::new();
        let mut i: usize = 0;
        while i < days.len()
            invariant
                0 <= i <= days.len(),
                paths.len() == i,
                forall|k: int|
                    0 <= k < i ==> (#[trigger] paths[k]).directory@
                        == "./serialized_camera_stats"@ && paths[k].file_name@
                        == "camera-top-100-pics-average-"@ + days[k]@ && matches_ymd_pattern(
                        days[k]@,
                    ),
            decreases days.len() - i,
        {
            let day = &days[i];
            proof {
                use_type_invariant(day);
                day.lemma_inv();
            }
            let ghost before = paths@;
            let path = Self::serialization_file_from_datestamp(day.clone());
            assert(path.file_name@ == "camera-top-100-pics-average-"@ + days[i as int]@);
            paths.push(path);
            assert forall|k: int| 0 <= k < i + 1 implies (#[trigger] paths[k]).directory@
                == "./serialized_camera_stats"@ && paths[k].file_name@
                == "camera-top-100-pics-average-"@ + days[k]@ && matches_ymd_pattern(days[k]@) by {
                if k < i {
                    assert(paths[k] == before[k]);
                }
            }
            i += 1;
        }
        paths
    }

    /// The files of the stored camera summaries of the last seven days,
    /// today's last: those of the week that ends with the day that the clock
    /// gives. `None` if one of the days has no stamp.
    pub fn serialized_file_paths_last_seven_days() -> (r: Option<Vec<FilePath>>)
        ensures
            exists|year: int, month: int, day: int| #[trigger]
                are_files_of_week(
                    paths_view(r),
                    "./serialized_camera_stats"@,
                    "camera-top-100-pics-average-"@,
                    Seq::empty(),
                    year,
                    month,
                    day,
                ),
            r is Some ==> r.unwrap().len() == 7,
    {
        let seven = last_seven_days_ymd();
        let ghost (year, month, day) = choose|year: int, month: int, day: int| #[trigger]
            is_week_until(days_view(seven), 7, year, month, day);
        match seven {
            Some(days) => {
                let ghost stamps = stamps_of(days@);
                let paths = Self::serialized_file_paths(days);
                proof {
                    let views = paths_view(Some(paths)).unwrap();
                    assert forall|i: int| 0 <= i < 7 implies #[trigger] views[i] == (
                        "./serialized_camera_stats"@,
                        "camera-top-100-pics-average-"@ + crate::dates::stamp_back(
                            year,
                            month,
                            day,
                            (6 - i) as nat,
                        ).unwrap() + Seq::<char>::empty(),
                    ) by {
                        assert(Some(stamps[i]) == crate::dates::stamp_back(
                            year,
                            month,
                            day,
                            (6 - i) as nat,
                        ));
                        assert(paths[i].file_name@ =~= "camera-top-100-pics-average-"@ + stamps[i]
                            + Seq::<char>::empty());
                    }
                    assert(are_files_of_week(
                        paths_view(Some(paths)),
                        "./serialized_camera_stats"@,
                        "camera-top-100-pics-average-"@,
                        Seq::empty(),
                        year,
                        month,
                        day,
                    ));
                }
                Some(paths)
            },
            None => {
                proof {
                    assert(are_files_of_week(
                        paths_view(None),
                        "./serialized_camera_stats"@,
                        "camera-top-100-pics-average-"@,
                        Seq::empty(),
                        year,
                        month,
                        day,
                    ));
                }
                None
            },
        }
    }
}

/// The text file of today's camera leaderboards in the given directory: the
/// file of the day that the clock gives. `None` if that day has no stamp.
pub fn todays_camera_stats_file_path(out_directory: String) -> (r: Option<FilePath>)
    ensures
        exists|year: int, month: int, day: int| #[trigger]
            is_file_of_day(
                path_view(r),
                out_directory@,
                "camera_top100_"@,
                ".txt"@,
                year,
                month,
                day,
            ),
        r is Some ==> r.unwrap().directory@ == out_directory@,
{
    let today = today_ymd();
    let ghost (year, month, day) = choose|year: int, month: int, day: int| #[trigger]
        is_stamp_of_day(stamp_view(today), year, month, day);
    match today {
        Some(today) => {
            let path = camera_stats_file_path(out_directory, &today);
            proof {
                assert(is_file_of_day(
                    path_view(Some(path)),
                    out_directory@,
                    "camera_top100_"@,
                    ".txt"@,
                    year,
                    month,
                    day,
                ));
            }
            Some(path)
        },
        None => {
            proof {
                assert(is_file_of_day(
                    path_view(None),
                    out_directory@,
                    "camera_top100_"@,
                    ".txt"@,
                    year,
                    month,
                    day,
                ));
            }
            None
        },
    }
}

/// The text file of the camera leaderboards written on the given day.
pub fn camera_stats_file_path(out_directory: String, day: &DateStamp) -> (r: FilePath)
    ensures
        r.directory@ == out_directory@,
        r.file_name@ == "camera_top100_"@ + day@ + ".txt"@,
{
    let file_name = dated_file_name(
        DailyCameraBestAvgPicsFilesConfig::FILE_PREFIX,
        day,
        DailyCameraBestAvgPicsFilesConfig::FILE_EXTENSION,
    );
    FilePath { directory: out_directory, file_name }
}

/// Where the user summary of a day, a set of keys, is stored.
pub struct SavedFstSetFilesConfig;

impl SavedFstSetFilesConfig {
    /// The directory of the stored user summaries. Nothing but this program
    /// is meant to read them; those older than seven days may be deleted.
    pub const DIRECTORY_PATH: &'static str = "./saved_fst_files";

    /// What the name of a stored user summary begins with; the stamp of its
    /// day follows.
    pub const FILE_PREFIX: &'static str = "user-top-10-pics-";

    pub const FILE_EXTENSION: &'static str = ".fst";

    /// The directory of the stored user summaries.
    pub fn storage_directory() -> (r: String)
        ensures
            r@ == "./saved_fst_files"@,
    {
        String::from_str(Self::DIRECTORY_PATH)
    }

    /// The file of the stored user summary of a day.
    pub fn file_path_from_date(datestamp: DateStamp) -> (r: FilePath)
        ensures
            r.directory@ == "./saved_fst_files"@,
            r.file_name@ == "user-top-10-pics-"@ + datestamp@ + ".fst"@,
    {
        let file_name = dated_file_name(Self::FILE_PREFIX, &datestamp, Self::FILE_EXTENSION);
        FilePath { directory: Self::storage_directory(), file_name }
    }

    /// The files of the stored user summaries of the given days, in the order
    /// of the days.
    pub fn file_paths(days: Vec<DateStamp>) -> (r: Vec<FilePath>)
        ensures
            r.len() == days.len(),
            forall|i: int|
                0 <= i < r.len() ==> (#[trigger] r[i]).directory@ == "./saved_fst_files"@
                    && r[i].file_name@ == "user-top-10-pics-"@ + days[i]@ + ".fst"@
                    && matches_ymd_pattern(days[i]@),
    {
        let mut paths: Vec<FilePath> = Vec::new();
        let mut i: usize = 0;
        while i < days.len()
            invariant
                0 <= i <= days.len(),
                paths.len() == i,
                forall|k: int|
                    0 <= k < i ==> (#[trigger] paths[k]).directory@ == "./saved_fst_files"@
                        && paths[k].file_name@ == "user-top-10-pics-"@ + days[k]@ + ".fst"@
                        && matches_ymd_pattern(days[k]@),
            decreases days.len() - i,
        {
            let day = &days[i];
            proof {
                use_type_invariant(day);
                day.lemma_inv();
            }
            let ghost before = paths@;
            let path = Self::file_path_from_date(day.clone());
            assert(path.file_name@ == "user-top-10-pics-"@ + days[i as int]@ + ".fst"@);
            paths.push(path);
            assert forall|k: int| 0 <= k < i + 1 implies (#[trigger] paths[k]).directory@
                == "./saved_fst_files"@ && paths[k].file_name@ == "user-top-10-pics-"@ + days[k]@
                + ".fst"@ && matches_ymd_pattern(days[k]@) by {
                if k < i {
                    assert(paths[k] == before[k]);
                }
            }
            i += 1;
        }
        paths
    }

    /// The files of the stored user summaries of the last seven days, today's
    /// last: those of the week that ends with the day that the clock gives.
    /// `None` if one of the days has no stamp.
    pub fn file_paths_last_seven_days() -> (r: Option<Vec<FilePath>>)
        ensures
            exists|year: int, month: int, day: int| #[trigger]
                are_files_of_week(
                    paths_view(r),
                    "./saved_fst_files"@,
                    "user-top-10-pics-"@,
                    ".fst"@,
                    year,
                    month,
                    day,
                ),
            r is Some ==> r.unwrap().len() == 7,
    {
        let seven = last_seven_days_ymd();
        let ghost (year, month, day) = choose|year: int, month: int, day: int| #[trigger]
            is_week_until(days_view(seven), 7, year, month, day);
        match seven {
            Some(days) => {
                let ghost stamps = stamps_of(days@);
                let paths = Self::file_paths(days);
                proof {
                    let views = paths_view(Some(paths)).unwrap();
                    assert forall|i: int| 0 <= i < 7 implies #[trigger] views[i] == (
                        "./saved_fst_files"@,
                        "user-top-10-pics-"@ + crate::dates::stamp_back(
                            year,
                            month,
                            day,
                            (6 - i) as nat,
                        ).unwrap() + ".fst"@,
                    ) by {
                        assert(Some(stamps[i]) == crate::dates::stamp_back(
                            year,
                            month,
                            day,
                            (6 - i) as nat,
                        ));
                    }
                    assert(are_files_of_week(
                        paths_view(Some(paths)),
                        "./saved_fst_files"@,
                        "user-top-10-pics-"@,
                        ".fst"@,
                        year,
                        month,
                        day,
                    ));
                }
                Some(paths)
            },
            None => {
                proof {
                    assert(are_files_of_week(
                        paths_view(None),
                        "./saved_fst_files"@,
                        "user-top-10-pics-"@,
                        ".fst"@,
                        year,
                        month,
                        day,
                    ));
                }
                None
            },
        }
    }
}

/// Names of the text files that hold, for each user, the ten best session
/// sums of the last seven days.
pub struct DailyUsersStatsConfig;

impl DailyUsersStatsConfig {
    pub const FILE_PREFIX: &'static str = "user_top_10_";

    pub const FILE_EXTENSION: &'static str = ".txt";
}

/// The text file of today's user leaderboards in the given directory: the
/// file of the day that the clock gives. `None` if that day has no stamp.
pub fn todays_users_stats_file_path(out_directory: String) -> (r: Option<FilePath>)
    ensures
        exists|year: int, month: int, day: int| #[trigger]
            is_file_of_day(
                path_view(r),
                out_directory@,
                "user_top_10_"@,
                ".txt"@,
                year,
                month,
                day,
            ),
        r is Some ==> r.unwrap().directory@ == out_directory@,
{
    let today = today_ymd();
    let ghost (year, month, day) = choose|year: int, month: int, day: int| #[trigger]
        is_stamp_of_day(stamp_view(today), year, month, day);
    match today {
        Some(today) => {
            let path = users_stats_file_path(out_directory, &today);
            proof {
                assert(is_file_of_day(
                    path_view(Some(path)),
                    out_directory@,
                    "user_top_10_"@,
                    ".txt"@,
                    year,
                    month,
                    day,
                ));
            }
            Some(path)
        },
        None => {
            proof {
                assert(is_file_of_day(
                    path_view(None),
                    out_directory@,
                    "user_top_10_"@,
                    ".txt"@,
                    year,
                    month,
                    day,
                ));
            }
            None
        },
    }
}

/// The text file of the user leaderboards written on the given day.
pub fn users_stats_file_path(out_directory: String, day: &DateStamp) -> (r: FilePath)
    ensures
        r.directory@ == out_directory@,
        r.file_name@ == "user_top_10_"@ + day@ + ".txt"@,
{
    let file_name = dated_file_name(
        DailyUsersStatsConfig::FILE_PREFIX,
        day,
        DailyUsersStatsConfig::FILE_EXTENSION,
    );
    FilePath { directory: out_directory, file_name }
}

} // verus!
