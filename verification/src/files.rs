//! Names and places of the daily session logs, and which of them are still to
//! be processed.
//!
//! A path is kept as its two parts, the directory and the name of the file in
//! it; joining them is left to whoever opens the file.

use crate::dates::{
    is_stamp_of_day, stamp_back, stamp_text, stamp_view, today_ymd, week_has_stamps, DateStamp,
};
use vstd::prelude::*;
use vstd::string::StringExecFns;

verus! {

/// A file in a directory.
#[derive(Debug)]
pub struct FilePath {
    /// The directory, as it was given.
    pub directory: String,
    /// The name of the file in the directory.
    pub file_name: String,
}

/// Settings for the names of the session logs that are processed day by day.
pub struct SessionLogFilesConfig;

impl SessionLogFilesConfig {
    /// What the name of a daily session log begins with.
    pub const DAILY_SESSIONS_PREFIX: &'static str = "safari-sessions-";

    /// The extension of a daily session log.
    pub const DAILY_SESSIONS_EXTENSION: &'static str = ".log";
}

/// The name of the session log of a day.
pub open spec fn log_file_name(date: Seq<char>) -> Seq<char> {
    "safari-sessions-"@ + date + ".log"@
}

/// A name made of a prefix, a date and an extension.
pub fn dated_file_name(prefix: &str, date: &DateStamp, extension: &str) -> (r: String)
    ensures
        r@ == prefix@ + date@ + extension@,
{
    let mut name = String::from_str(prefix);
    name.append(date.as_str());
    name.append(extension);
    name
}

/// The name of the session log of a day.
pub fn session_log_file_name(date: &DateStamp) -> (r: String)
    ensures
        r@ == log_file_name(date@),
{
    dated_file_name(
        SessionLogFilesConfig::DAILY_SESSIONS_PREFIX,
        date,
        SessionLogFilesConfig::DAILY_SESSIONS_EXTENSION,
    )
}

/// Date and path of a session log that has yet to be processed.
#[derive(Debug)]
pub struct UnprocessedSessionLogFile {
    /// The day of the log.
    pub date: DateStamp,
    /// Where the log is.
    pub path: FilePath,
}

impl UnprocessedSessionLogFile {
    pub fn new(date: DateStamp, path: FilePath) -> (r: Self)
        ensures
            r.date == date,
            r.path == path,
    {
        Self { date, path }
    }
}

/// A session log of one of the last seven days that is not where it should
/// be.
#[derive(Debug)]
pub struct MissingLogFile {
    /// Where the log was looked for.
    pub path: FilePath,
}

impl MissingLogFile {
    /// The words the error is reported with.
    pub fn message(&self) -> (r: String)
        ensures
            r@ == "The unprocessed session log file: "@ + self.path.file_name@
                + " could not be found in "@ + self.path.directory@,
    {
        let mut text = String::from_str("The unprocessed session log file: ");
        text.append(self.path.file_name.as_str());
        text.append(" could not be found in ");
        text.append(self.path.directory.as_str());
        text
    }
}

/// What is known of one day before its log is looked at.
#[derive(Debug)]
pub struct DayStatus {
    /// The day.
    pub date: DateStamp,
    /// Whether the summary of the day is stored already.
    pub processed: bool,
    /// Whether the session log of the day exists.
    pub log_exists: bool,
}

/// What the discovery says of one day that is not processed: the log of the
/// day, and before it an error if the log is missing.
pub open spec fn found_for_day(directory: Seq<char>, day: DayStatus) -> Seq<
    Result<(Seq<char>, Seq<char>, Seq<char>), (Seq<char>, Seq<char>)>,
> {
    let name = log_file_name(day.date@);
    if day.processed {
        Seq::empty()
    } else if day.log_exists {
        seq![Ok((day.date@, directory, name))]
    } else {
        seq![Err((directory, name)), Ok((day.date@, directory, name))]
    }
}

/// What the discovery says of a run of days, day by day.
pub open spec fn found(directory: Seq<char>, days: Seq<DayStatus>) -> Seq<
    Result<(Seq<char>, Seq<char>, Seq<char>), (Seq<char>, Seq<char>)>,
>
    decreases days.len(),
{
    if days.len() == 0 {
        Seq::empty()
    } else {
        found(directory, days.drop_last()) + found_for_day(directory, days.last())
    }
}

/// What an item of the discovery says: for a log its date, directory and
/// name, for an error the directory and name of the missing log.
pub open spec fn item_view(item: Result<UnprocessedSessionLogFile, MissingLogFile>) -> Result<
    (Seq<char>, Seq<char>, Seq<char>),
    (Seq<char>, Seq<char>),
> {
    match item {
        Ok(file) => Ok((file.date@, file.path.directory@, file.path.file_name@)),
        Err(missing) => Err((missing.path.directory@, missing.path.file_name@)),
    }
}

/// The views of the items of a discovery.
pub open spec fn items_view(items: Seq<Result<UnprocessedSessionLogFile, MissingLogFile>>) -> Seq<
    Result<(Seq<char>, Seq<char>, Seq<char>), (Seq<char>, Seq<char>)>,
> {
    Seq::new(items.len(), |i: int| item_view(items[i]))
}

/// The directory and the name of a path that may be missing.
pub open spec fn path_view(path: Option<FilePath>) -> Option<(Seq<char>, Seq<char>)> {
    match path {
        Some(path) => Some((path.directory@, path.file_name@)),
        None => None,
    }
}

/// The directories and the names of paths that may be missing.
pub open spec fn paths_view(paths: Option<Vec<FilePath>>) -> Option<Seq<(Seq<char>, Seq<char>)>> {
    match paths {
        Some(paths) => Some(
            Seq::new(paths@.len(), |i: int| (paths@[i].directory@, paths@[i].file_name@)),
        ),
        None => None,
    }
}

/// Whether the outcome is the file of the given day in the directory, named
/// by the prefix, the stamp of the day and the extension; or nothing where
/// the day has no stamp.
pub open spec fn is_file_of_day(
    outcome: Option<(Seq<char>, Seq<char>)>,
    directory: Seq<char>,
    prefix: Seq<char>,
    extension: Seq<char>,
    year: int,
    month: int,
    day: int,
) -> bool {
    match stamp_text(year, month, day) {
        Some(stamp) => outcome == Some((directory, prefix + stamp + extension)),
        None => outcome is None,
    }
}

/// Whether the outcome is the files of the seven days that end with the
/// given one, oldest first, each in the directory and named by the prefix,
/// the stamp of its day and the extension; or nothing where one of the days
/// has no stamp.
pub open spec fn are_files_of_week(
    outcome: Option<Seq<(Seq<char>, Seq<char>)>>,
    directory: Seq<char>,
    prefix: Seq<char>,
    extension: Seq<char>,
    year: int,
    month: int,
    day: int,
) -> bool {
    match outcome {
        Some(paths) => week_has_stamps(year, month, day) && paths.len() == 7 && forall|i: int|
            0 <= i < 7 ==> #[trigger] paths[i] == (
                directory,
                prefix + stamp_back(year, month, day, (6 - i) as nat).unwrap() + extension,
            ),
        None => !week_has_stamps(year, month, day),
    }
}

/// The date, the directory and the name of a log that may be missing.
pub open spec fn log_view(file: Option<UnprocessedSessionLogFile>) -> Option<
    (Seq<char>, Seq<char>, Seq<char>),
> {
    match file {
        Some(file) => Some((file.date@, file.path.directory@, file.path.file_name@)),
        None => None,
    }
}

/// Whether the outcome is the session log of the given day in the directory,
/// or nothing where the day has no stamp.
pub open spec fn is_log_of_day(
    outcome: Option<(Seq<char>, Seq<char>, Seq<char>)>,
    directory: Seq<char>,
    year: int,
    month: int,
    day: int,
) -> bool {
    match stamp_text(year, month, day) {
        Some(stamp) => outcome == Some((stamp, directory, log_file_name(stamp))),
        None => outcome is None,
    }
}

/// Date and path of today's session log: the log of the day that the clock
/// gives, in the given directory. `None` if that day has no stamp.
pub fn todays_file_for_processing(session_directory: String) -> (r: Option<
    UnprocessedSessionLogFile,
>)
    ensures
        exists|year: int, month: int, day: int| #[trigger]
            is_log_of_day(log_view(r), session_directory@, year, month, day),
        r is Some ==> r.unwrap().path.directory@ == session_directory@
            && r.unwrap().path.file_name@ == log_file_name(r.unwrap().date@),
{
    let today = today_ymd();
    let ghost (year, month, day) = choose|year: int, month: int, day: int| #[trigger]
        is_stamp_of_day(stamp_view(today), year, month, day);
    match today {
        Some(today) => {
            let file_name = session_log_file_name(&today);
            let file = UnprocessedSessionLogFile::new(
                today,
                FilePath { directory: session_directory, file_name },
            );
            proof {
                assert(is_log_of_day(
                    log_view(Some(file)),
                    session_directory@,
                    year,
                    month,
                    day,
                ));
            }
            Some(file)
        },
        None => {
            proof {
                assert(is_log_of_day(log_view(None), session_directory@, year, month, day));
            }
            None
        },
    }
}

/// The session logs of the given days that have yet to be processed, in the
/// order of the days.
///
/// A processed day gives nothing. Any other day gives its log, whether the
/// log exists or not; a log that does not exist gives an error first, so that
/// a day without its log gives two items. The run is never cut short.
pub fn unprocessed_session_log_files(session_log_files_directory: &str, days: Vec<DayStatus>) -> (r:
    Vec<Result<UnprocessedSessionLogFile, MissingLogFile>>)
    ensures
        items_view(r@) == found(session_log_files_directory@, days@),
{
    let mut unprocessed_log_files: Vec<Result<UnprocessedSessionLogFile, MissingLogFile>> =
        Vec::new();
    let mut i: usize = 0;
    assert(days@.take(0) =~= Seq::<DayStatus>::empty());
    assert(items_view(unprocessed_log_files@) =~= found(
        session_log_files_directory@,
        days@.take(0),
    ));
    while i < days.len()
        invariant
            0 <= i <= days.len(),
            items_view(unprocessed_log_files@) == found(
                session_log_files_directory@,
                days@.take(i as int),
            ),
        decreases days.len() - i,
    {
        let ghost before = unprocessed_log_files@;
        let day = &days[i];
        proof {
            let t = days@.take(i + 1);
            assert(t.drop_last() =~= days@.take(i as int));
            assert(t.last() == days@[i as int]);
        }
        if !day.processed {
            let log_filename = session_log_file_name(&day.date);
            if !day.log_exists {
                let missing = MissingLogFile {
                    path: FilePath {
                        directory: String::from_str(session_log_files_directory),
                        file_name: log_filename.clone(),
                    },
                };
                unprocessed_log_files.push(Err(missing));
            }
            let file = UnprocessedSessionLogFile::new(
                day.date.clone(),
                FilePath {
                    directory: String::from_str(session_log_files_directory),
                    file_name: log_filename,
                },
            );
            unprocessed_log_files.push(Ok(file));
        }
        assert(items_view(unprocessed_log_files@) =~= items_view(before) + found_for_day(
            session_log_files_directory@,
            days@[i as int],
        ));
        i += 1;
    }
    assert(days@.take(i as int) =~= days@);
    unprocessed_log_files
}

} // verus!
