use browser_timer::nested::{flatten_session, nest_session};
use browser_timer::segments::parse_url_parts;
use browser_timer::tracker::Tracker;

fn url_path(url: &str) -> Vec<String> {
    parse_url_parts(url).ok().unwrap()
}

#[test]
fn nested_shape_follows_segments() {
    let mut tracker = Tracker::new("work".to_string());
    tracker.focus_tab(&url_path("https://example.com/blog/post1"), 1, 100);
    tracker.focus_tab(&url_path("https://example.com/about"), 2, 100);
    tracker.focus_tab(&url_path("https://other.org"), 3, 100);
    let snap = tracker.serialize_at(150, true);
    let nested = nest_session(&snap);
    assert_eq!(nested.session_name, "work");
    assert_eq!(nested.data.len(), 2);
    let example = nested.data.iter().find(|n| n.sub_part == "example.com").unwrap();
    assert_eq!(example.aggregate_time, 0);
    assert_eq!(example.children.len(), 2);
    let blog = example.children.iter().find(|n| n.sub_part == "blog").unwrap();
    assert_eq!(blog.children.len(), 1);
    let post = &blog.children[0];
    assert_eq!(post.sub_part, "post1");
    assert_eq!(post.aggregate_time, 50);
    assert_eq!(post.instances.as_ref().unwrap().len(), 1);
    assert!(post.children.is_empty());
    let other = nested.data.iter().find(|n| n.sub_part == "other.org").unwrap();
    assert_eq!(other.aggregate_time, 50);
}

#[test]
fn save_then_load_shape_keeps_tree() {
    let mut tracker = Tracker::new("work".to_string());
    let post = url_path("https://example.com/blog/post1");
    tracker.focus_tab(&post, 1, 100);
    tracker.focus_tab(&post, 2, 120);
    tracker.close_tab(&post, 2, 170).unwrap();
    let snap = tracker.serialize_at(200, true);
    let loaded = flatten_session(&nest_session(&snap));
    assert_eq!(loaded.session_name, "work");
    assert_eq!(loaded.data.len(), snap.data.len());
    for record in &snap.data {
        let same = loaded.data.iter().find(|r| r.path == record.path).unwrap();
        assert_eq!(same.aggregate_time, record.aggregate_time);
        assert_eq!(same.instances, record.instances);
    }
    let restored = Tracker::from_serialized("work".to_string(), loaded.data, false);
    let node = restored.node_at(&post).unwrap();
    assert_eq!(node.aggregate_time, 50 + 100);
    assert_eq!(node.instances.len(), 1);
}

#[test]
fn pruned_save_has_no_instances_in_file_shape() {
    let mut tracker = Tracker::new("work".to_string());
    tracker.focus_tab(&url_path("https://example.com/ab"), 1, 0);
    let nested = nest_session(&tracker.serialize_at(10, false));
    assert!(nested.data[0].instances.is_none());
    assert!(nested.data[0].children[0].instances.is_none());
    assert_eq!(nested.data[0].children[0].aggregate_time, 10);
}
