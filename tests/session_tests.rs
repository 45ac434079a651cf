use browser_timer::logger::{log_line, Logger};
use browser_timer::session::{
    backup_file_name, session_file_name, session_name_from_file, temp_file_name, PersistenceError, SessionLoader,
};
use browser_timer::text::{decimal_text, join_file_path};
use browser_timer::tracker::Tracker;

#[test]
fn list_sessions_sorted_json_only() {
    let loader = SessionLoader::new("dir".to_string());
    assert!(loader.list_sessions(&vec![]).is_empty());
    let files = vec![
        "session2.json".to_string(),
        "session1.json".to_string(),
        "readme.md".to_string(),
        ".json".to_string(),
        "x.json.tmp".to_string(),
        "Zeta.json".to_string(),
        "a.b.json".to_string(),
    ];
    let names = loader.list_sessions(&files);
    assert_eq!(names, vec!["Zeta", "a.b", "session1", "session2"]);
}

#[test]
fn session_file_names() {
    assert_eq!(session_file_name("work"), "work.json");
    assert_eq!(temp_file_name("work"), "work.json.tmp");
    assert_eq!(backup_file_name("test_session", "20250101_120000"), "test_session_20250101_120000.json");
    assert_eq!(session_name_from_file(&"work.json".to_string()), Some("work".to_string()));
    assert_eq!(session_name_from_file(&"work.jsonx".to_string()), None);
    assert_eq!(session_name_from_file(&".json".to_string()), None);
}

#[test]
fn loaded_session_must_carry_requested_name() {
    let loader = SessionLoader::new("dir".to_string());
    let mut t = Tracker::new("test_session".to_string());
    t.track_tab_focused("https://example.com", 1).unwrap();
    let s = t.serialize_session(true);
    let s = loader.check_loaded_session("test_session", s).unwrap();
    assert_eq!(s.session_name, "test_session");
    assert_eq!(s.data.len(), 1);
    match loader.check_loaded_session("renamed", s) {
        Err(PersistenceError::JsonSerialization(msg)) => {
            assert!(msg.starts_with("Session name mismatch: expected 'renamed', found 'test_session'"))
        }
        _ => panic!("mismatch accepted"),
    }
}

#[test]
fn persistence_error_messages() {
    assert_eq!(PersistenceError::SessionNotFound("nonexistent".to_string()).message(), "Session not found: nonexistent");
    assert_eq!(PersistenceError::Io("x".to_string()).message(), "IO error: x");
    assert_eq!(PersistenceError::JsonSerialization("y".to_string()).message(), "JSON serialization error: y");
}

#[test]
fn save_directory_is_kept() {
    let loader = SessionLoader::new("/data/browser_timer/sessions".to_string());
    assert_eq!(loader.get_save_directory(), "/data/browser_timer/sessions");
}

#[test]
fn logger_entries() {
    let logger = Logger::new("./logs");
    assert_eq!(logger.log_file_path(), "./logs/app.log");
    assert_eq!(logger.get_log_file_path(), "./logs/app.log");
    assert_eq!(Logger::new("/var/log/").log_file_path(), "/var/log/app.log");
    assert_eq!(Logger::new("").log_file_path(), "app.log");
    assert_eq!(logger.info("up"), "INFO: up");
    assert_eq!(logger.warn("w"), "WARN: w");
    assert_eq!(logger.error("e"), "ERROR: e");
    assert_eq!(logger.debug("d"), "DEBUG: d");
    assert_eq!(log_line("2025-01-01 00:00:00", "INFO: up"), "[2025-01-01 00:00:00] INFO: up\n");
}

#[test]
fn decimal_digits() {
    assert_eq!(decimal_text(0), "0");
    assert_eq!(decimal_text(7), "7");
    assert_eq!(decimal_text(10), "10");
    assert_eq!(decimal_text(1048576), "1048576");
    assert_eq!(decimal_text(u64::MAX), "18446744073709551615");
}

#[test]
fn default_directory_prefers_data_dir() {
    let l = SessionLoader::with_default_directory(Some("/home/u/.local/share".to_string()), Some("/home/u".to_string()))
        .ok()
        .unwrap();
    assert_eq!(l.get_save_directory(), "/home/u/.local/share/browser_timer/sessions");
    let l = SessionLoader::with_default_directory(None, Some("/home/u/".to_string())).ok().unwrap();
    assert_eq!(l.get_save_directory(), "/home/u/browser_timer/sessions");
    match SessionLoader::with_default_directory(None, None) {
        Err(PersistenceError::Io(msg)) => assert_eq!(msg, "Could not determine default save directory"),
        _ => panic!("no directory expected"),
    }
}

#[test]
fn file_paths_join_with_one_slash() {
    assert_eq!(join_file_path("a", "b.json"), "a/b.json");
    assert_eq!(join_file_path("a/", "b.json"), "a/b.json");
    assert_eq!(join_file_path("", "b.json"), "b.json");
}

#[test]
fn load_session_reports_missing_and_mismatched() {
    let loader = SessionLoader::new("dir".to_string());
    match loader.load_session("absent", None) {
        Err(PersistenceError::SessionNotFound(n)) => assert_eq!(n, "absent"),
        _ => panic!("absent session loaded"),
    }
    let s = Tracker::new("work".to_string()).serialize_session(false);
    assert!(loader.load_session("other", Some(s)).is_err());
    let s = Tracker::new("work".to_string()).serialize_session(false);
    assert_eq!(loader.load_session("work", Some(s)).ok().unwrap().session_name, "work");
}

#[test]
fn listed_names_are_distinct() {
    let loader = SessionLoader::new("dir".to_string());
    let files = vec!["b.json".to_string(), "a.json".to_string(), "b.json.tmp".to_string(), "c.json".to_string()];
    let names = loader.list_sessions(&files);
    assert_eq!(names, vec!["a", "b", "c"]);
}
