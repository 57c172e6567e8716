use ginger::osc::{n_set, s_new, sync, Arg, Message, Reply};
use ginger::readback::{Correlator, Outcome};

#[test]
fn commands_track_nodes_at_unknown() {
    let mut c = Correlator::default();
    c.observe_command(&s_new("sine", 30, 0, 1, &[]));
    c.observe_command(&n_set(10, &[]));
    c.observe_command(&sync(1));
    assert_eq!(c.outcome(30), Outcome::Unknown);
    assert_eq!(c.unknown_nodes(), vec![10, 30]);
}

#[test]
fn command_does_not_reset_a_known_outcome() {
    let mut c = Correlator::new();
    c.observe_reply(&Reply::NodeStarted(5));
    c.observe_command(&n_set(5, &[]));
    assert_eq!(c.outcome(5), Outcome::Applied);
    assert!(c.unknown_nodes().is_empty());
}

#[test]
fn malformed_commands_track_nothing() {
    let mut c = Correlator::new();
    c.observe_command(&Message::new("/s_new", vec![Arg::Str("x".to_string())]));
    c.observe_command(&Message::new("/n_set", vec![]));
    assert!(c.unknown_nodes().is_empty());
}

#[test]
fn node_started_overrides_rejection() {
    let mut c = Correlator::new();
    c.observe_reply(&Reply::Failed {
        command: "/s_new".to_string(),
        message: String::new(),
        node_id: Some(2),
    });
    assert_eq!(c.outcome(2), Outcome::Rejected);
    c.observe_reply(&Reply::NodeStarted(2));
    assert_eq!(c.outcome(2), Outcome::Applied);
}

#[test]
fn failure_without_node_changes_nothing() {
    let mut c = Correlator::new();
    c.observe_command(&n_set(3, &[]));
    c.observe_reply(&Reply::Failed {
        command: "/n_set".to_string(),
        message: "x".to_string(),
        node_id: None,
    });
    assert_eq!(c.outcome(3), Outcome::Unknown);
    assert!(c.barriers().is_empty());
}

#[test]
fn barriers_are_kept_in_arrival_order_and_touch_no_node() {
    let mut c = Correlator::new();
    c.observe_command(&n_set(8, &[]));
    for id in [3, 1, 2] {
        c.observe_reply(&Reply::Synced(id));
    }
    assert_eq!(c.barriers(), [3, 1, 2]);
    assert_eq!(c.outcome(8), Outcome::Unknown);
    assert_eq!(c.unknown_nodes(), vec![8]);
}

#[test]
fn tree_listing_applies_listed_nodes_except_rejected() {
    let mut c = Correlator::new();
    for node in [-4, 9, 1] {
        c.observe_command(&n_set(node, &[]));
    }
    c.observe_reply(&Reply::Failed {
        command: "/n_set".to_string(),
        message: String::new(),
        node_id: Some(9),
    });
    c.observe_reply(&Reply::QueryTreeReply(vec![9, 1, 77]));
    assert_eq!(c.outcome(9), Outcome::Rejected);
    assert_eq!(c.outcome(1), Outcome::Applied);
    assert_eq!(c.outcome(77), Outcome::Applied);
    assert_eq!(c.outcome(-4), Outcome::Unknown);
    assert_eq!(c.unknown_nodes(), vec![-4]);
}

#[test]
fn unknown_nodes_are_sorted_ascending() {
    let mut c = Correlator::new();
    for node in [5, -10, 300, 0, 7] {
        c.observe_command(&n_set(node, &[]));
    }
    c.observe_reply(&Reply::NodeStarted(0));
    assert_eq!(c.unknown_nodes(), vec![-10, 5, 7, 300]);
}

#[test]
fn outcome_is_unknown_exactly_until_readback_names_the_node() {
    let mut c = Correlator::new();
    c.observe_command(&s_new("sine", 1, 0, 1, &[]));
    c.observe_command(&n_set(2, &[]));
    c.observe_command(&n_set(3, &[]));
    c.observe_reply(&Reply::Synced(1));
    c.observe_reply(&Reply::NodeStarted(1));
    c.observe_reply(&Reply::Failed {
        command: "/n_set".to_string(),
        message: String::new(),
        node_id: Some(2),
    });
    c.observe_reply(&Reply::QueryTreeReply(vec![4]));
    assert_eq!(c.outcome(1), Outcome::Applied);
    assert_eq!(c.outcome(2), Outcome::Rejected);
    assert_eq!(c.outcome(3), Outcome::Unknown);
    assert_eq!(c.outcome(4), Outcome::Applied);
    assert_eq!(c.outcome(5), Outcome::Unknown);
    // Only the commanded node without readback is reported as unknown coverage.
    assert_eq!(c.unknown_nodes(), vec![3]);
}
