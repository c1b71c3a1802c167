use leios_tools::partition::{
    sort_schedule, Link, NodeId, PartitionEvent, PartitionOp, PartitionRuntime,
    PartitionScheduleEntry, Timestamp,
};

fn link(from: usize, to: usize) -> Link {
    Link { from: NodeId(from), to: NodeId(to) }
}

fn entry(t: u64, op: PartitionOp, links: Vec<Link>, name: &str) -> PartitionScheduleEntry {
    PartitionScheduleEntry { timestamp: Timestamp(t), op, links, scenario_name: name.to_string() }
}

#[test]
fn empty_schedule_needs_no_runtime() {
    assert!(PartitionRuntime::new(vec![], true).is_none());
}

#[test]
fn sort_is_stable() {
    let sorted = sort_schedule(vec![
        entry(20, PartitionOp::Heal, vec![], "a"),
        entry(10, PartitionOp::Activate, vec![], "b"),
        entry(20, PartitionOp::Activate, vec![], "c"),
        entry(5, PartitionOp::Activate, vec![], "d"),
        entry(10, PartitionOp::Heal, vec![], "e"),
        entry(20, PartitionOp::Heal, vec![], "f"),
    ]);
    let names: String = sorted.iter().map(|e| e.scenario_name.as_str()).collect();
    assert_eq!(names, "dbeacf");
}

#[test]
fn window_cuts_and_heals_directed_links() {
    let links = vec![link(0, 1), link(2, 0)];
    let mut rt = PartitionRuntime::new(
        vec![
            entry(30, PartitionOp::Heal, links.clone(), "w"),
            entry(10, PartitionOp::Activate, links.clone(), "w"),
        ],
        true,
    )
    .unwrap();
    assert_eq!(rt.next_event_time(), Some(Timestamp(10)));
    assert!(rt.advance_to(Timestamp(9)).is_empty());
    assert!(rt.is_link_active(NodeId(0), NodeId(1)));

    let events = rt.advance_to(Timestamp(10));
    assert_eq!(
        events,
        vec![PartitionEvent::Started { scenario_name: "w".to_string(), links }]
    );
    assert!(!rt.is_link_active(NodeId(0), NodeId(1)));
    assert!(!rt.is_link_active(NodeId(2), NodeId(0)));
    assert!(rt.is_link_active(NodeId(1), NodeId(0)));
    assert!(rt.is_link_active(NodeId(0), NodeId(2)));
    assert_eq!(rt.next_event_time(), Some(Timestamp(30)));

    assert!(rt.advance_to(Timestamp(10)).is_empty());
    let events = rt.advance_to(Timestamp(1000));
    assert_eq!(
        events,
        vec![PartitionEvent::Healed { scenario_name: "w".to_string(), link_count: 2 }]
    );
    assert!(rt.is_link_active(NodeId(0), NodeId(1)));
    assert_eq!(rt.next_event_time(), None);
}

#[test]
fn overlapping_windows_compose() {
    let mut rt = PartitionRuntime::new(
        vec![
            entry(0, PartitionOp::Activate, vec![link(1, 2)], "a"),
            entry(20, PartitionOp::Heal, vec![link(1, 2)], "a"),
            entry(10, PartitionOp::Activate, vec![link(1, 2)], "b"),
            entry(30, PartitionOp::Heal, vec![link(1, 2)], "b"),
        ],
        false,
    )
    .unwrap();
    let mut active = |t: u64| {
        assert!(rt.advance_to(Timestamp(t)).is_empty());
        rt.is_link_active(NodeId(1), NodeId(2))
    };
    assert!(!active(0));
    assert!(!active(10));
    assert!(!active(20));
    assert!(active(30));
}

#[test]
fn one_step_equals_many() {
    let schedule = || {
        vec![
            entry(1, PartitionOp::Activate, vec![link(0, 1), link(0, 1)], "a"),
            entry(2, PartitionOp::Activate, vec![link(0, 1)], "b"),
            entry(3, PartitionOp::Heal, vec![link(0, 1), link(0, 1)], "a"),
        ]
    };
    let mut once = PartitionRuntime::new(schedule(), true).unwrap();
    let mut many = PartitionRuntime::new(schedule(), true).unwrap();
    let all = once.advance_to(Timestamp(3));
    let mut steps = Vec::new();
    for t in 0..4 {
        steps.extend(many.advance_to(Timestamp(t)));
    }
    assert_eq!(all, steps);
    assert_eq!(all.len(), 3);
    assert!(!once.is_link_active(NodeId(0), NodeId(1)));
    assert!(!many.is_link_active(NodeId(0), NodeId(1)));
}

#[test]
fn links_with_large_node_numbers_stay_apart() {
    let big = usize::MAX;
    let mut rt = PartitionRuntime::new(
        vec![entry(0, PartitionOp::Activate, vec![link(big, 0), link(0, big)], "a")],
        false,
    )
    .unwrap();
    rt.advance_to(Timestamp(0));
    assert!(!rt.is_link_active(NodeId(big), NodeId(0)));
    assert!(!rt.is_link_active(NodeId(0), NodeId(big)));
    assert!(rt.is_link_active(NodeId(big), NodeId(big)));
    assert!(rt.is_link_active(NodeId(1), NodeId(0)));
}
