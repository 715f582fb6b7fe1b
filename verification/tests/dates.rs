use safari_stats::configuration::{
    camera_stats_file_path, users_stats_file_path, DailyCameraBestAvgPicsFilesConfig,
    DailyUsersStatsConfig, SavedFstSetFilesConfig, SerializationFilesConfig,
};
use safari_stats::dates::{
    date_stamp_of, last_seven_days_until, last_seven_days_ymd, previous_six_days, today_ymd,
    DateStamp,
};
use safari_stats::files::{
    session_log_file_name, todays_file_for_processing, unprocessed_session_log_files, DayStatus,
    FilePath, SessionLogFilesConfig, UnprocessedSessionLogFile,
};

fn stamp(text: &str) -> DateStamp {
    DateStamp::try_from_ymd(text.to_string()).unwrap()
}

#[test]
fn last_seven_days_distinct() {
    let last_seven_days_ymd = last_seven_days_ymd().unwrap();
    for (idx, date) in last_seven_days_ymd.iter().enumerate() {
        assert!(
            !(last_seven_days_ymd[..idx].contains(date)
                || last_seven_days_ymd[(idx + 1)..].contains(date))
        )
    }
}

#[test]
fn stamps_have_eight_digits() {
    assert!(DateStamp::try_from_ymd("20210314".to_string()).is_some());
    assert!(DateStamp::try_from_ymd("2021031".to_string()).is_none());
    assert!(DateStamp::try_from_ymd("202103145".to_string()).is_none());
    assert!(DateStamp::try_from_ymd("2021-03-14".to_string()).is_none());
    assert!(DateStamp::try_from_ymd("2021031a".to_string()).is_none());
    assert!(DateStamp::try_from_ymd("20210314\n".to_string()).is_none());
    assert!(DateStamp::try_from_ymd(String::new()).is_none());
    let d = stamp("20210314");
    assert_eq!(d.as_str(), "20210314");
    assert!(d == d.clone());
    assert!(d != stamp("20210315"));
    assert_eq!(d.into_string(), "20210314");
}

#[test]
fn days_are_written_as_stamps() {
    assert_eq!(date_stamp_of(2021, 3, 4).unwrap().into_string(), "20210304");
    assert_eq!(date_stamp_of(987, 12, 31).unwrap().into_string(), "09871231");
    assert_eq!(date_stamp_of(0, 1, 1).unwrap().into_string(), "00000101");
    assert_eq!(date_stamp_of(9999, 12, 31).unwrap().into_string(), "99991231");
    assert_eq!(date_stamp_of(2024, 2, 29).unwrap().into_string(), "20240229");
    assert!(date_stamp_of(2021, 2, 29).is_none());
    assert!(date_stamp_of(2021, 13, 1).is_none());
    assert!(date_stamp_of(12021, 1, 1).is_none());
    assert!(date_stamp_of(-5, 1, 1).is_none());
}

#[test]
fn seven_days_across_a_leap_day() {
    let days: Vec<String> = last_seven_days_until(2024, 3, 2)
        .unwrap()
        .into_iter()
        .map(|d| d.into_string())
        .collect();
    assert_eq!(
        days,
        vec!["20240225", "20240226", "20240227", "20240228", "20240229", "20240301", "20240302"]
    );
    let days: Vec<String> = last_seven_days_until(2021, 1, 3)
        .unwrap()
        .into_iter()
        .map(|d| d.into_string())
        .collect();
    assert_eq!(
        days,
        vec!["20201228", "20201229", "20201230", "20201231", "20210101", "20210102", "20210103"]
    );
    assert!(last_seven_days_until(0, 1, 3).is_none());
    assert!(last_seven_days_until(2021, 2, 30).is_none());
}

#[test]
fn today_is_the_last_of_the_seven() {
    let seven = last_seven_days_ymd().unwrap();
    assert_eq!(seven.len(), 7);
    let six = previous_six_days().unwrap();
    assert_eq!(six.len(), 6);
    let today = today_ymd().unwrap();
    assert_eq!(today.as_str().len(), 8);
    assert!(today.as_str().chars().all(|c| c.is_ascii_digit()));
}

#[test]
fn names_of_the_files() {
    let day = stamp("20210314");
    assert_eq!(session_log_file_name(&day), "safari-sessions-20210314.log");
    assert_eq!(SessionLogFilesConfig::DAILY_SESSIONS_PREFIX, "safari-sessions-");
    assert_eq!(SessionLogFilesConfig::DAILY_SESSIONS_EXTENSION, ".log");
    assert_eq!(SerializationFilesConfig::serialization_directory(), "./serialized_camera_stats");
    let path = SerializationFilesConfig::serialization_file_from_datestamp(day.clone());
    assert_eq!(path.directory, "./serialized_camera_stats");
    assert_eq!(path.file_name, "camera-top-100-pics-average-20210314");
    assert_eq!(SavedFstSetFilesConfig::storage_directory(), "./saved_fst_files");
    let path = SavedFstSetFilesConfig::file_path_from_date(day.clone());
    assert_eq!(path.directory, "./saved_fst_files");
    assert_eq!(path.file_name, "user-top-10-pics-20210314.fst");
    let path = camera_stats_file_path("out".to_string(), &day);
    assert_eq!(path.directory, "out");
    assert_eq!(path.file_name, "camera_top100_20210314.txt");
    let path = users_stats_file_path("out".to_string(), &day);
    assert_eq!(path.file_name, "user_top_10_20210314.txt");
    assert_eq!(DailyCameraBestAvgPicsFilesConfig::FILE_PREFIX, "camera_top100_");
    assert_eq!(DailyUsersStatsConfig::FILE_EXTENSION, ".txt");
    let paths = SerializationFilesConfig::serialized_file_paths(vec![day.clone(), stamp("20210315")]);
    assert_eq!(paths.len(), 2);
    assert_eq!(paths[1].file_name, "camera-top-100-pics-average-20210315");
    let paths = SavedFstSetFilesConfig::file_paths(vec![day]);
    assert_eq!(paths[0].file_name, "user-top-10-pics-20210314.fst");
    assert_eq!(SerializationFilesConfig::serialized_file_paths_last_seven_days().unwrap().len(), 7);
    assert_eq!(SavedFstSetFilesConfig::file_paths_last_seven_days().unwrap().len(), 7);
}

#[test]
fn todays_log() {
    let file = todays_file_for_processing("logs".to_string()).unwrap();
    assert_eq!(file.path.directory, "logs");
    assert_eq!(file.path.file_name, format!("safari-sessions-{}.log", file.date.as_str()));
    let made = UnprocessedSessionLogFile::new(
        stamp("20210314"),
        FilePath { directory: "d".to_string(), file_name: "f".to_string() },
    );
    assert_eq!(made.date.as_str(), "20210314");
    assert_eq!(made.path.file_name, "f");
}

#[test]
fn discovery_of_unprocessed_logs() {
    let days = vec![
        DayStatus { date: stamp("20210301"), processed: true, log_exists: true },
        DayStatus { date: stamp("20210302"), processed: false, log_exists: true },
        DayStatus { date: stamp("20210303"), processed: false, log_exists: false },
        DayStatus { date: stamp("20210304"), processed: true, log_exists: false },
    ];
    let found = unprocessed_session_log_files("logs", days);
    assert_eq!(found.len(), 3);
    match &found[0] {
        Ok(file) => {
            assert_eq!(file.date.as_str(), "20210302");
            assert_eq!(file.path.directory, "logs");
            assert_eq!(file.path.file_name, "safari-sessions-20210302.log");
        }
        Err(_) => panic!("the log of the second day exists"),
    }
    match &found[1] {
        Err(missing) => {
            assert_eq!(missing.path.file_name, "safari-sessions-20210303.log");
            assert_eq!(
                missing.message(),
                "The unprocessed session log file: safari-sessions-20210303.log could not be found in logs"
            );
        }
        Ok(_) => panic!("the log of the third day is missing"),
    }
    match &found[2] {
        Ok(file) => assert_eq!(file.date.as_str(), "20210303"),
        Err(_) => panic!("a missing log is still listed"),
    }
    assert!(unprocessed_session_log_files("logs", Vec::new()).is_empty());
}
