use browser_timer::host::{
    frame_message, message_length, verify_session_name, HostStep, IncomingMessage, NativeMessagingError,
    NativeMessagingHost, OutgoingMessage, ResponseData, StoreOutcome, StoreRequest, TabActionData,
    MAX_MESSAGE_SIZE,
};
use browser_timer::session::SessionLoader;

fn host() -> NativeMessagingHost {
    NativeMessagingHost::new(SessionLoader::new("/tmp/sessions".to_string()))
}

fn reply(step: HostStep) -> OutgoingMessage {
    match step {
        HostStep::Reply(m) => m,
        HostStep::Store(_) => panic!("expected a reply"),
    }
}

fn start(h: &mut NativeMessagingHost, name: &str) -> OutgoingMessage {
    match h.handle_message(IncomingMessage::Start { session_name: name.to_string() }, 0) {
        HostStep::Store(StoreRequest::Load(n)) => {
            assert_eq!(n, name);
            h.complete(StoreOutcome::Loaded(None))
        }
        HostStep::Store(_) => panic!("unexpected store request"),
        HostStep::Reply(m) => m,
    }
}

fn active_name(h: &mut NativeMessagingHost) -> Option<String> {
    let m = reply(h.handle_message(IncomingMessage::GetActive, 0));
    assert!(m.success);
    match m.data {
        Some(ResponseData::ActiveSession(n)) => Some(n),
        None => None,
        Some(_) => panic!("unexpected data"),
    }
}

fn tab(url: &str, tab_id: u32) -> TabActionData {
    TabActionData { url: url.to_string(), tab_id }
}

#[test]
fn end_to_end_work_session() {
    let mut h = host();
    assert!(start(&mut h, "work").success);
    assert_eq!(active_name(&mut h), Some("work".to_string()));

    let m = reply(h.handle_message(IncomingMessage::TabFocused(tab("https://example.com/a/b", 1)), 1_000));
    assert!(m.success);

    let m = reply(h.handle_message(IncomingMessage::GetData, 1_000));
    match m.data {
        Some(ResponseData::Report(rows)) => assert!(rows.is_empty()),
        _ => panic!("expected a report"),
    }
    let m = reply(h.handle_message(IncomingMessage::GetData, 1_250));
    match m.data {
        Some(ResponseData::Report(rows)) => {
            assert_eq!(rows.len(), 1);
            assert_eq!(rows[0].path, "example.com");
            assert!(rows[0].aggregate_time > 0);
            assert_eq!(rows[0].aggregate_time, 250);
        }
        _ => panic!("expected a report"),
    }

    match h.handle_message(IncomingMessage::Stop, 1_300) {
        HostStep::Store(StoreRequest::Save(s)) => {
            assert_eq!(s.session_name, "work");
            assert!(s.data.iter().all(|n| n.instances.is_none()));
            assert_eq!(s.data.len(), 1);
            assert_eq!(s.data[0].aggregate_time, 300);
        }
        _ => panic!("expected a save"),
    }
    assert!(h.complete(StoreOutcome::Saved).success);
    assert_eq!(active_name(&mut h), None);
}

#[test]
fn end_to_end_report_path_with_long_segments() {
    let mut h = host();
    assert!(start(&mut h, "work").success);
    reply(h.handle_message(IncomingMessage::TabFocused(tab("https://example.com/aa/bb", 1)), 0));
    let m = reply(h.handle_message(IncomingMessage::GetData, 40));
    match m.data {
        Some(ResponseData::Report(rows)) => {
            assert_eq!(rows.len(), 1);
            assert_eq!(rows[0].path, "example.com/aa/bb");
        }
        _ => panic!("expected a report"),
    }
}

#[test]
fn start_twice_fails() {
    let mut h = host();
    assert!(start(&mut h, "one").success);
    let m = start(&mut h, "two");
    assert!(!m.success);
    assert_eq!(m.error, Some("Tracker already started".to_string()));
    assert_eq!(active_name(&mut h), Some("one".to_string()));
}

#[test]
fn requests_without_tracker_fail() {
    let mut h = host();
    for msg in [
        IncomingMessage::Stop,
        IncomingMessage::GetData,
        IncomingMessage::TabFocused(tab("https://example.com", 1)),
        IncomingMessage::TabUnfocused(tab("https://example.com", 1)),
        IncomingMessage::TabClosed(tab("https://example.com", 1)),
    ] {
        let m = reply(h.handle_message(msg, 0));
        assert!(!m.success);
        assert_eq!(m.error, Some("Tracker not started".to_string()));
    }
    let m = reply(h.handle_message(IncomingMessage::Ping, 0));
    assert!(m.success);
    assert!(m.data.is_none());
}

#[test]
fn tab_errors_become_failed_responses() {
    let mut h = host();
    assert!(start(&mut h, "w").success);
    let m = reply(h.handle_message(IncomingMessage::TabUnfocused(tab("https://example.com", 9)), 0));
    assert_eq!(m.error, Some("Tab 9 not found".to_string()));
    let m = reply(h.handle_message(IncomingMessage::TabFocused(tab("", 9)), 0));
    assert_eq!(m.error, Some("Invalid URL: Empty URL".to_string()));
}

#[test]
fn session_name_validation() {
    let mut h = host();
    let long_101: String = std::iter::repeat('a').take(101).collect();
    let long_100: String = std::iter::repeat('a').take(100).collect();
    for bad in ["", long_101.as_str(), "a/b"] {
        let m = start(&mut h, bad);
        assert!(!m.success);
        assert!(m.error.unwrap().starts_with("Invalid session name: "));
        assert_eq!(active_name(&mut h), None);
    }
    assert!(start(&mut h, long_100.as_str()).success);
    assert_eq!(active_name(&mut h), Some(long_100.clone()));
}

#[test]
fn session_name_rules() {
    assert!(verify_session_name("work").is_ok());
    for bad in ["a\\b", "a:b", "a*b", "a?b", "a\"b", "a<b", "a>b", "a|b", "a\0b"] {
        assert!(matches!(verify_session_name(bad), Err(NativeMessagingError::InvalidSessionName(_))));
    }
    match verify_session_name("") {
        Err(e) => assert_eq!(e.message(), "Invalid session name: Session name cannot be empty"),
        Ok(()) => panic!("empty name accepted"),
    }
    let long: String = std::iter::repeat('z').take(101).collect();
    match verify_session_name(&long) {
        Err(NativeMessagingError::InvalidSessionName(s)) => {
            assert_eq!(s, "Session name is too long. Allowed length: 100 characters")
        }
        _ => panic!("long name accepted"),
    }
    match verify_session_name("x/y") {
        Err(NativeMessagingError::InvalidSessionName(s)) => assert_eq!(s, "Session name contains invalid characters"),
        _ => panic!("slash accepted"),
    }
}

#[test]
fn start_resumes_stored_session() {
    let mut first = host();
    assert!(start(&mut first, "work").success);
    reply(first.handle_message(IncomingMessage::TabFocused(tab("https://example.com/page", 2)), 100));
    let saved = first.on_interrupt(160).unwrap();
    assert_eq!(active_name(&mut first), None);
    assert!(saved.data.iter().all(|n| n.instances.is_some()));

    let mut second = host();
    match second.handle_message(IncomingMessage::Start { session_name: "work".to_string() }, 200) {
        HostStep::Store(StoreRequest::Load(_)) => {}
        _ => panic!("expected a load"),
    }
    assert!(second.complete(StoreOutcome::Loaded(Some(saved))).success);
    let m = reply(second.handle_message(IncomingMessage::GetData, 200));
    match m.data {
        Some(ResponseData::Report(rows)) => {
            let row = rows.iter().find(|r| r.path == "example.com/page").unwrap();
            assert_eq!(row.aggregate_time, 100);
            assert_eq!(row.active_instances, 1);
        }
        _ => panic!("expected a report"),
    }
}

#[test]
fn start_with_mismatched_stored_name_fails() {
    let mut first = host();
    assert!(start(&mut first, "other").success);
    let saved = first.on_stream_closed(5).unwrap();
    let mut h = host();
    match h.handle_message(IncomingMessage::Start { session_name: "work".to_string() }, 0) {
        HostStep::Store(StoreRequest::Load(_)) => {}
        _ => panic!("expected a load"),
    }
    let m = h.complete(StoreOutcome::Loaded(Some(saved)));
    assert!(!m.success);
    assert!(m.error.unwrap().starts_with("JSON serialization error: Session name mismatch"));
    assert_eq!(active_name(&mut h), None);
}

#[test]
fn stream_close_prunes_and_interrupt_keeps_instances() {
    let mut h = host();
    assert!(start(&mut h, "w").success);
    reply(h.handle_message(IncomingMessage::TabFocused(tab("https://example.com", 1)), 0));
    let s = h.on_stream_closed(10).unwrap();
    assert!(s.data.iter().all(|n| n.instances.is_none()));
    assert!(h.on_stream_closed(10).is_none());

    let mut h = host();
    assert!(start(&mut h, "w").success);
    reply(h.handle_message(IncomingMessage::TabFocused(tab("https://example.com", 1)), 0));
    let s = h.on_interrupt(10).unwrap();
    assert_eq!(s.data[0].instances.as_ref().unwrap().len(), 1);
    assert!(h.on_interrupt(10).is_none());
}

#[test]
fn sessions_listing_and_deletion() {
    let mut h = host();
    match h.handle_message(IncomingMessage::GetSessions, 0) {
        HostStep::Store(StoreRequest::List) => {}
        _ => panic!("expected a listing"),
    }
    let files = vec!["b.json".to_string(), "notes.txt".to_string(), "a.json".to_string(), "c.json.tmp".to_string()];
    let m = h.complete(StoreOutcome::Listed(files));
    match m.data {
        Some(ResponseData::Sessions(names)) => assert_eq!(names, vec!["a".to_string(), "b".to_string()]),
        _ => panic!("expected names"),
    }
    match h.handle_message(IncomingMessage::DeleteSession { session_name: "a".to_string() }, 0) {
        HostStep::Store(StoreRequest::Delete(n)) => assert_eq!(n, "a"),
        _ => panic!("expected a deletion"),
    }
    let m = h.complete(StoreOutcome::Failed(browser_timer::session::PersistenceError::SessionNotFound("a".to_string())));
    assert_eq!(m.error, Some("Session not found: a".to_string()));
    let m = h.complete(StoreOutcome::Deleted);
    assert_eq!(m.error, Some("No store request is pending".to_string()));
}

#[test]
fn stop_failure_keeps_tracker() {
    let mut h = host();
    assert!(start(&mut h, "w").success);
    match h.handle_message(IncomingMessage::Stop, 0) {
        HostStep::Store(StoreRequest::Save(_)) => {}
        _ => panic!("expected a save"),
    }
    let m = h.complete(StoreOutcome::Failed(browser_timer::session::PersistenceError::Io("disk full".to_string())));
    assert_eq!(m.error, Some("IO error: disk full".to_string()));
    assert_eq!(active_name(&mut h), Some("w".to_string()));
}

#[test]
fn response_carries_request_id() {
    let m = OutgoingMessage::error("boom".to_string()).with_id(42);
    assert_eq!(m.id, 42);
    assert!(!m.success);
    assert_eq!(m.error, Some("boom".to_string()));
    let m = OutgoingMessage::success(None).with_id(7);
    assert!(m.success && m.error.is_none() && m.id == 7);
}

#[test]
fn frame_header_limits() {
    assert!(matches!(message_length(&[0, 0, 0, 0]), Err(NativeMessagingError::InvalidLength(0))));
    assert!(matches!(message_length(&[1, 0, 16, 0]), Err(NativeMessagingError::MessageTooLarge(1048577))));
    assert!(matches!(message_length(&[0xff, 0xff, 0xff, 0xff]), Err(NativeMessagingError::MessageTooLarge(4294967295))));
    assert_eq!(message_length(&[0, 0, 16, 0]).unwrap(), MAX_MESSAGE_SIZE as usize);
    assert_eq!(message_length(&[5, 1, 0, 0]).unwrap(), 261);
    assert_eq!(NativeMessagingError::MessageTooLarge(1048577).message(), "Message too large: 1048577 bytes");
    assert_eq!(NativeMessagingError::InvalidLength(0).message(), "Invalid message length: 0");
}

#[test]
fn frame_round_trip() {
    let payload = b"{\"id\":1}".to_vec();
    let framed = frame_message(&payload);
    assert_eq!(&framed[..4], &[8u8, 0, 0, 0]);
    assert_eq!(&framed[4..], &payload[..]);
    let header = [framed[0], framed[1], framed[2], framed[3]];
    assert_eq!(message_length(&header).unwrap(), payload.len());
    let big = vec![7u8; 300];
    let framed = frame_message(&big);
    assert_eq!(&framed[..4], &[44u8, 1, 0, 0]);
}

#[test]
fn unreadable_request_reply_uses_id_zero() {
    let r = browser_timer::host::read_failure_reply("Invalid message length: 0".to_string());
    assert_eq!(r.id, 0);
    assert!(!r.success);
    assert!(r.data.is_none());
    assert_eq!(r.error, Some("Invalid message length: 0".to_string()));
}

#[test]
fn replies_without_tracker_leave_host_empty() {
    let mut h = host();
    let m = reply(h.handle_message(IncomingMessage::Ping, 0));
    assert!(m.success && m.error.is_none());
    let m = reply(h.handle_message(IncomingMessage::GetActive, 0));
    assert!(m.success && m.error.is_none() && m.data.is_none());
    assert!(!reply(h.handle_message(IncomingMessage::Stop, 0)).success);
    assert_eq!(active_name(&mut h), None);
}
