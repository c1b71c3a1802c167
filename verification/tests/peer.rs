use leios_tools::peer::{
    mark_downstream_hot, mark_downstream_warm, new_downstream_flag, ConnectionMode,
    DownstreamFlag, DownstreamState,
};

#[test]
fn downstream_flag_escalates_monotonically() {
    let mut f = new_downstream_flag();
    let read = |f: &DownstreamFlag| DownstreamState::from_u8(f.load());
    assert_eq!(read(&f), DownstreamState::Cold);
    mark_downstream_warm(&mut f);
    assert_eq!(read(&f), DownstreamState::Warm);
    mark_downstream_hot(&mut f);
    assert_eq!(read(&f), DownstreamState::Hot);
    mark_downstream_warm(&mut f);
    assert_eq!(read(&f), DownstreamState::Hot);
}

#[test]
fn downstream_state_str() {
    assert_eq!(DownstreamState::Cold.as_str(), "cold");
    assert_eq!(DownstreamState::Warm.as_str(), "warm");
    assert_eq!(DownstreamState::Hot.as_str(), "hot");
}

#[test]
fn unknown_levels_are_cold() {
    assert_eq!(DownstreamState::from_u8(0), DownstreamState::Cold);
    assert_eq!(DownstreamState::from_u8(1), DownstreamState::Warm);
    assert_eq!(DownstreamState::from_u8(2), DownstreamState::Hot);
    assert_eq!(DownstreamState::from_u8(3), DownstreamState::Cold);
    assert_eq!(DownstreamState::from_u8(255), DownstreamState::Cold);
}

#[test]
fn hot_can_come_first() {
    let mut f = new_downstream_flag();
    mark_downstream_hot(&mut f);
    assert_eq!(f.load(), 2);
}

#[test]
fn connection_modes_differ() {
    assert_ne!(ConnectionMode::InitiatorOnly, ConnectionMode::ResponderOnly);
    assert_ne!(ConnectionMode::Duplex, ConnectionMode::ResponderOnly);
}
