use browser_timer::segments::parse_url_parts;
use browser_timer::tracker::{TabOperation, Tracker, TrackerError};

fn path(parts: &[&str]) -> Vec<String> {
    parts.iter().map(|p| p.to_string()).collect()
}

fn url_path(url: &str) -> Vec<String> {
    match parse_url_parts(url) {
        Ok(p) => p,
        Err(_) => panic!("url does not parse"),
    }
}

#[test]
fn test_new_tracker_creation() {
    let tracker = Tracker::new("test_session".to_string());
    assert_eq!(tracker.get_session_name(), "test_session");
    assert_eq!(tracker.node_count(), 0);
}

#[test]
fn test_url_tree_creation() {
    let mut tracker = Tracker::new("test".to_string());
    tracker.track_tab_focused("https://example.com/path/to/page", 1).unwrap();

    assert!(tracker.node_at(&path(&["example.com"])).is_some());
    assert!(tracker.node_at(&path(&["example.com", "path"])).is_some());
    assert!(tracker.node_at(&path(&["example.com", "path", "to"])).is_some());
    let page_node = tracker.node_at(&path(&["example.com", "path", "to", "page"])).unwrap();

    assert_eq!(page_node.instances.len(), 1);
    assert_eq!(page_node.instances[0].tab_id, 1);
}

#[test]
fn test_multiple_tabs_same_url() {
    let mut tracker = Tracker::new("test".to_string());

    tracker.track_tab_focused("https://example.com", 1).unwrap();
    tracker.track_tab_focused("https://example.com", 2).unwrap();
    tracker.track_tab_focused("https://example.com", 3).unwrap();

    let node = tracker.node_at(&path(&["example.com"])).unwrap();
    assert_eq!(node.instances.len(), 3);

    let tab_ids: Vec<u32> = node.instances.iter().map(|inst| inst.tab_id).collect();
    assert!(tab_ids.contains(&1));
    assert!(tab_ids.contains(&2));
    assert!(tab_ids.contains(&3));
}

#[test]
fn test_tab_focusing_and_unfocusing() {
    let mut tracker = Tracker::new("test".to_string());
    tracker.track_tab_focused("https://example.com", 1).unwrap();

    let node = tracker.node_at(&path(&["example.com"])).unwrap();
    assert!(node.instances[0].is_active());
    assert_eq!(node.instances[0].time_active, 0);

    tracker.track_tab_unfocused("https://example.com", 1).unwrap();

    let node = tracker.node_at(&path(&["example.com"])).unwrap();
    assert!(!node.instances[0].is_active());
}

#[test]
fn test_tab_closing() {
    let mut tracker = Tracker::new("test".to_string());

    tracker.track_tab_focused("https://example.com", 1).unwrap();
    tracker.track_tab_closed("https://example.com", 1).unwrap();

    let node = tracker.node_at(&path(&["example.com"])).unwrap();
    assert_eq!(node.instances.len(), 0);
}

#[test]
fn test_tab_handling() {
    let mut tracker = Tracker::new("test".to_string());
    tracker.track_tab_focused("https://example.com", 1).unwrap();
    tracker.track_tab_closed("https://example.com", 1).unwrap();

    tracker.track_tab_focused("https://example.com", 2).unwrap();
    tracker.track_tab_unfocused("https://example.com", 2).unwrap();

    let node = tracker.node_at(&path(&["example.com"])).unwrap();
    assert_eq!(node.instances.len(), 1);
    assert!(!node.instances[0].is_active());
}

#[test]
fn test_error_handling_unfocus_nonexistent_tab() {
    let mut tracker = Tracker::new("test".to_string());
    let result = tracker.track_tab_unfocused("https://example.com", 999);
    assert!(result.is_err());
    assert!(matches!(result.unwrap_err(), TrackerError::TabNotFound(999)));
}

#[test]
fn test_error_handling_close_nonexistent_tab() {
    let mut tracker = Tracker::new("test".to_string());
    let result = tracker.track_tab_closed("https://example.com", 999);
    assert!(result.is_err());
    assert!(matches!(result.unwrap_err(), TrackerError::TabNotFound(999)));
}

#[test]
fn test_error_handling_invalid_urls() {
    let mut tracker = Tracker::new("test".to_string());
    assert!(tracker.track_tab_focused("", 1).is_err());
    assert!(tracker.track_tab_focused("not-a-url", 1).is_err());
}

#[test]
fn test_refocusing_existing_tab() {
    let mut tracker = Tracker::new("test".to_string());
    tracker.track_tab_focused("https://example.com", 1).unwrap();
    tracker.track_tab_unfocused("https://example.com", 1).unwrap();
    tracker.track_tab_focused("https://example.com", 1).unwrap();

    let node = tracker.node_at(&path(&["example.com"])).unwrap();
    assert_eq!(node.instances.len(), 1);
    assert!(node.instances[0].is_active());
}

#[test]
fn test_tracking_data_collection() {
    let mut tracker = Tracker::new("test".to_string());
    let path1 = url_path("https://example.com/path1");
    let path2 = url_path("https://example.com/path2");

    tracker.focus_tab(&path1, 1, 5_000);
    tracker.focus_tab(&path2, 2, 5_000);
    // 100 ms later
    tracker.close_tab(&path1, 1, 5_100).unwrap();
    let tracking_data = tracker.collect_tracking_data(5_100);

    assert!(!tracking_data.is_empty());

    let path1_data = tracking_data
        .iter()
        .find(|data| data.path == "example.com/path1")
        .expect("Should find path1 data");

    assert_eq!(path1_data.total_instances, 0);
    assert_eq!(path1_data.active_instances, 0);
    assert!(path1_data.aggregate_time > 0);

    let path2_data = tracking_data
        .iter()
        .find(|data| data.path == "example.com/path2")
        .expect("Should find path2 data");

    assert_eq!(path2_data.total_instances, 1);
    assert_eq!(path2_data.active_instances, 1);
}

#[test]
fn test_from_serialized_fresh_session() {
    let mut original_tracker = Tracker::new("original".to_string());
    original_tracker.track_tab_focused("https://example.com", 1).unwrap();

    let serialized = original_tracker.serialize_session(true);

    let fresh_tracker = Tracker::from_serialized("fresh".to_string(), serialized.data, true);

    let node = fresh_tracker.node_at(&path(&["example.com"])).unwrap();
    assert_eq!(node.instances.len(), 0);
}

#[test]
fn test_from_serialized_continue_session() {
    let mut original_tracker = Tracker::new("original".to_string());
    original_tracker.track_tab_focused("https://example.com", 1).unwrap();

    let serialized = original_tracker.serialize_session(true);

    let continued_tracker =
        Tracker::from_serialized(serialized.session_name, serialized.data, false);

    let node = continued_tracker.node_at(&path(&["example.com"])).unwrap();
    assert_eq!(node.instances.len(), 1);
    assert_eq!(node.instances[0].tab_id, 1);
}

#[test]
fn test_hierarchical_time_accumulation() {
    let mut tracker = Tracker::new("test".to_string());
    let post = url_path("https://example.com/blog/post1");
    tracker.focus_tab(&post, 1, 10_000);
    // 100 ms later
    tracker.close_tab(&post, 1, 10_100).unwrap();
    let root_node = tracker.node_at(&path(&["example.com"])).unwrap();
    let blog_node = tracker.node_at(&path(&["example.com", "blog"])).unwrap();
    let post1_node = tracker.node_at(&path(&["example.com", "blog", "post1"])).unwrap();
    assert_eq!(blog_node.aggregate_time, 0);
    assert_eq!(root_node.aggregate_time, 0);
    assert!(post1_node.aggregate_time > 0);
}

#[test]
fn close_adds_sum_of_focused_intervals() {
    let mut tracker = Tracker::new("t".to_string());
    let p = url_path("https://example.com/a");
    tracker.focus_tab(&p, 7, 1_000);
    tracker.unfocus_tab(&p, 7, 1_250).unwrap();
    tracker.focus_tab(&p, 7, 2_000);
    tracker.focus_tab(&p, 7, 2_100);
    tracker.unfocus_tab(&p, 7, 2_500).unwrap();
    tracker.unfocus_tab(&p, 7, 2_600).unwrap();
    tracker.focus_tab(&p, 7, 3_000);
    tracker.close_tab(&p, 7, 3_040).unwrap();
    let node = tracker.node_at(&p).unwrap();
    assert_eq!(node.aggregate_time, 250 + 500 + 40);
    assert_eq!(node.instances.len(), 0);
}

#[test]
fn close_after_single_focus_adds_interval() {
    let mut tracker = Tracker::new("t".to_string());
    let p = url_path("https://example.com/a");
    tracker.focus_tab(&p, 1, 100);
    tracker.close_tab(&p, 1, 400).unwrap();
    assert_eq!(tracker.node_at(&p).unwrap().aggregate_time, 300);
}

#[test]
fn clock_going_back_adds_nothing() {
    let mut tracker = Tracker::new("t".to_string());
    let p = url_path("https://example.com/a");
    tracker.focus_tab(&p, 1, 900);
    tracker.close_tab(&p, 1, 400).unwrap();
    assert_eq!(tracker.node_at(&p).unwrap().aggregate_time, 0);
}

#[test]
fn unseen_tab_fails_then_succeeds_after_focus() {
    let mut tracker = Tracker::new("t".to_string());
    let p = url_path("https://example.com/x");
    assert_eq!(tracker.unfocus_tab(&p, 4, 10), Err(TrackerError::TabNotFound(4)));
    assert_eq!(tracker.close_tab(&p, 4, 10), Err(TrackerError::TabNotFound(4)));
    tracker.focus_tab(&p, 4, 10);
    assert_eq!(tracker.unfocus_tab(&p, 4, 20), Ok(()));
    tracker.focus_tab(&p, 4, 30);
    assert_eq!(tracker.close_tab(&p, 4, 40), Ok(()));
    assert_eq!(tracker.close_tab(&p, 4, 50), Err(TrackerError::TabNotFound(4)));
}

#[test]
fn tab_known_at_other_node_is_not_found() {
    let mut tracker = Tracker::new("t".to_string());
    tracker.track_tab_focused("https://example.com/aa", 3).unwrap();
    let r = tracker.track_tab_unfocused("https://example.com/bb", 3);
    assert_eq!(r, Err(TrackerError::TabNotFound(3)));
}

#[test]
fn invalid_urls_are_invalid_url_errors() {
    let mut tracker = Tracker::new("t".to_string());
    assert!(matches!(tracker.track_tab_focused("", 1), Err(TrackerError::InvalidUrl(_))));
    assert!(matches!(tracker.track_tab_focused("not-a-url", 1), Err(TrackerError::InvalidUrl(_))));
    assert!(matches!(tracker.track_tab_unfocused("", 1), Err(TrackerError::InvalidUrl(_))));
    assert!(matches!(tracker.track_tab_closed("not-a-url", 1), Err(TrackerError::InvalidUrl(_))));
    assert_eq!(tracker.node_count(), 0);
}

#[test]
fn url_parts_keep_host_and_long_segments() {
    assert_eq!(url_path("https://example.com/a/b"), path(&["example.com"]));
    assert_eq!(url_path("https://example.com/ab/cd/"), path(&["example.com", "ab", "cd"]));
    assert_eq!(url_path("http://Example.COM/blog/x/post1"), path(&["example.com", "blog", "post1"]));
    assert!(parse_url_parts("mailto:someone").is_err());
}

#[test]
fn error_messages() {
    assert_eq!(TrackerError::TabNotFound(999).message(), "Tab 999 not found");
    assert_eq!(TrackerError::TabNotFound(0).message(), "Tab 0 not found");
    assert_eq!(TrackerError::InvalidUrl("Empty URL".to_string()).message(), "Invalid URL: Empty URL");
    let mut tracker = Tracker::new("t".to_string());
    match tracker.track_tab_focused("", 1) {
        Err(e) => assert_eq!(e.message(), "Invalid URL: Empty URL"),
        Ok(()) => panic!("empty url accepted"),
    }
}

#[test]
fn full_snapshot_restores_same_tree() {
    let mut tracker = Tracker::new("s".to_string());
    let a = url_path("https://example.com/aa/bb");
    let c = url_path("https://other.org/cc");
    tracker.focus_tab(&a, 1, 100);
    tracker.focus_tab(&a, 2, 150);
    tracker.unfocus_tab(&a, 2, 170).unwrap();
    tracker.focus_tab(&c, 3, 200);
    tracker.close_tab(&c, 3, 260).unwrap();
    let snap = tracker.serialize_at(300, true);
    assert_eq!(snap.session_name, "s");
    let restored = Tracker::from_serialized("s".to_string(), snap.data, false);
    assert_eq!(restored.node_count(), tracker.node_count());
    for p in [path(&["example.com"]), path(&["example.com", "aa"]), a.clone(), path(&["other.org"]), c.clone()] {
        let x = tracker.node_at(&p).unwrap();
        let y = restored.node_at(&p).unwrap();
        assert_eq!(x.aggregate_time, y.aggregate_time);
        assert_eq!(x.instances, y.instances);
    }
    let aa = restored.node_at(&a).unwrap();
    assert_eq!(aa.aggregate_time, 200 + 20);
    assert_eq!(aa.instances.len(), 2);
    assert_eq!(restored.node_at(&c).unwrap().aggregate_time, 60);
}

#[test]
fn fresh_restore_keeps_times_and_drops_instances() {
    let mut tracker = Tracker::new("s".to_string());
    let a = url_path("https://example.com/aa");
    tracker.focus_tab(&a, 1, 100);
    let snap = tracker.serialize_at(400, true);
    let fresh = Tracker::from_serialized("new".to_string(), snap.data, true);
    assert_eq!(fresh.get_session_name(), "new");
    assert_eq!(fresh.node_count(), 2);
    assert_eq!(fresh.node_at(&a).unwrap().aggregate_time, 300);
    assert_eq!(fresh.node_at(&a).unwrap().instances.len(), 0);
    assert_eq!(fresh.node_at(&path(&["example.com"])).unwrap().instances.len(), 0);

    let pruned = tracker.serialize_at(500, false);
    assert!(pruned.data.iter().all(|n| n.instances.is_none()));
    let resumed = Tracker::from_serialized("s".to_string(), pruned.data, false);
    assert_eq!(resumed.node_at(&a).unwrap().aggregate_time, 400);
    assert_eq!(resumed.node_at(&a).unwrap().instances.len(), 0);
}

#[test]
fn report_omits_nodes_without_time() {
    let mut tracker = Tracker::new("s".to_string());
    let p = url_path("https://example.com/a/bb");
    tracker.focus_tab(&p, 1, 1_000);
    let rows = tracker.collect_tracking_data(1_000);
    assert!(rows.is_empty());
    let rows = tracker.collect_tracking_data(1_100);
    assert_eq!(rows.len(), 1);
    assert_eq!(rows[0].path, "example.com/bb");
    assert_eq!(rows[0].aggregate_time, 100);
    assert_eq!(rows[0].total_instances, 1);
    assert_eq!(rows[0].active_instances, 1);
    let rows = tracker.collect_tracking_data(1_100);
    assert_eq!(rows[0].aggregate_time, 100);
}

#[test]
fn apply_tab_event_routes_operations() {
    let mut tracker = Tracker::new("s".to_string());
    assert!(tracker.apply_tab_event(TabOperation::Focus, "https://example.com/abc", 5, 10).is_ok());
    assert!(tracker.apply_tab_event(TabOperation::Unfocus, "https://example.com/abc", 5, 30).is_ok());
    let node = tracker.node_at(&path(&["example.com", "abc"])).unwrap();
    assert_eq!(node.instances[0].time_active, 20);
    assert!(tracker.apply_tab_event(TabOperation::Close, "https://example.com/abc", 5, 40).is_ok());
    assert_eq!(tracker.node_at(&path(&["example.com", "abc"])).unwrap().aggregate_time, 20);
    assert_eq!(
        tracker.apply_tab_event(TabOperation::Close, "https://example.com/abc", 5, 50),
        Err(TrackerError::TabNotFound(5))
    );
}

#[test]
fn wall_clock_is_after_2020() {
    assert!(browser_timer::clock::current_timestamp() > 1_577_836_800_000);
}

#[test]
fn focused_tab_stays_known_through_other_events() {
    let mut tracker = Tracker::new("t".to_string());
    let p = url_path("https://example.com/page");
    let q = url_path("https://example.com/other");
    tracker.focus_tab(&p, 1, 0);
    tracker.focus_tab(&p, 2, 5);
    tracker.close_tab(&p, 2, 6).unwrap();
    tracker.focus_tab(&q, 1, 7);
    tracker.close_tab(&q, 1, 8).unwrap();
    tracker.unfocus_tab(&p, 1, 9).unwrap();
    tracker.focus_tab(&p, 1, 10);
    assert_eq!(tracker.unfocus_tab(&p, 1, 11), Ok(()));
    assert_eq!(tracker.close_tab(&p, 1, 12), Ok(()));
    assert_eq!(tracker.close_tab(&p, 1, 13), Err(TrackerError::TabNotFound(1)));
}

#[test]
fn fresh_restore_ignores_repeated_tabs() {
    let mut tracker = Tracker::new("s".to_string());
    let a = url_path("https://example.com/aa");
    tracker.focus_tab(&a, 1, 0);
    let mut snap = tracker.serialize_at(30, true);
    for rec in snap.data.iter_mut() {
        if let Some(v) = rec.instances.as_mut() {
            if let Some(first) = v.first().copied() {
                v.push(first);
            }
        }
    }
    let fresh = Tracker::from_serialized("n".to_string(), snap.data, true);
    assert_eq!(fresh.node_count(), 2);
    assert_eq!(fresh.node_at(&a).unwrap().aggregate_time, 30);
    assert!(fresh.node_at(&a).unwrap().instances.is_empty());
}
