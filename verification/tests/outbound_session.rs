use darkfi::net::p2p::P2p;
use darkfi::net::sessions::outbound_session::{
    AddressChoice, OutboundSession, SlotAction, SlotEvent, SlotState, StopReason,
};

fn a(s: &str) -> String {
    s.to_string()
}

#[test]
fn addr_is_inbound_compares_with_listen_address() {
    assert!(OutboundSession::addr_is_inbound(&a("tcp://me:1"), &Some(a("tcp://me:1"))));
    assert!(!OutboundSession::addr_is_inbound(&a("tcp://you:1"), &Some(a("tcp://me:1"))));
    assert!(!OutboundSession::addr_is_inbound(&a("tcp://me:1"), &None));
}

#[test]
fn load_address_judges_candidates() {
    let s = OutboundSession::new(Some(a("tcp://me:1")));
    let mut p: P2p<u32, (), ()> = P2p::new((), ());
    p.store(a("tcp://conn:1"), 5);
    assert!(matches!(s.load_address(&mut p, None), AddressChoice::PoolEmpty));
    assert!(matches!(s.load_address(&mut p, Some(a("tcp://me:1"))), AddressChoice::Skip));
    assert!(matches!(s.load_address(&mut p, Some(a("tcp://conn:1"))), AddressChoice::Skip));
    match s.load_address(&mut p, Some(a("tcp://new:1"))) {
        AddressChoice::Take(x) => assert_eq!(x, "tcp://new:1"),
        other => panic!("unexpected {:?}", other),
    }
    // A second slot cannot take the same address.
    assert!(matches!(s.load_address(&mut p, Some(a("tcp://new:1"))), AddressChoice::Skip));
    assert!(!p.add_pending(&a("tcp://new:1")));
}

#[test]
fn connect_loop_full_cycle() {
    let s = OutboundSession::new(None);
    let mut p: P2p<u32, (), ()> = P2p::new((), ());
    let (st, act) = s.channel_connect_step(&mut p, SlotState::Loading, SlotEvent::HostLoaded(Some(a("tcp://x:1"))));
    assert!(matches!(act, SlotAction::Connect(ref x) if x == "tcp://x:1"));
    assert!(matches!(st, SlotState::Connecting(_)));
    let (st, act) = s.channel_connect_step(&mut p, st, SlotEvent::ConnectSucceeded);
    assert!(matches!(act, SlotAction::Register));
    // Registering keeps the reservation until it succeeds.
    assert!(!p.add_pending(&a("tcp://x:1")));
    p.store(a("tcp://x:1"), 9);
    let (st, act) = s.channel_connect_step(&mut p, st, SlotEvent::Registered);
    assert!(matches!(act, SlotAction::AttachProtocols));
    assert!(p.add_pending(&a("tcp://x:1")));
    p.remove_pending(&a("tcp://x:1"));
    let (st, act) = s.channel_connect_step(&mut p, st, SlotEvent::Attached);
    assert!(matches!(act, SlotAction::WaitForStop));
    assert!(matches!(st, SlotState::Connected(_)));
    let (st, act) = s.channel_connect_step(&mut p, st, SlotEvent::ChannelStopped);
    assert!(matches!(act, SlotAction::LoadHost));
    assert!(matches!(st, SlotState::Loading));
}

#[test]
fn connect_loop_failures() {
    let s = OutboundSession::new(None);
    let mut p: P2p<u32, (), ()> = P2p::new((), ());
    let (st, act) = s.channel_connect_step(&mut p, SlotState::Loading, SlotEvent::HostLoaded(None));
    assert!(matches!(act, SlotAction::Exit(StopReason::ServiceStopped)));
    assert!(!st.awaits(&SlotEvent::HostLoaded(None)));

    let (st, _) = s.channel_connect_step(&mut p, SlotState::Loading, SlotEvent::HostLoaded(Some(a("tcp://y:1"))));
    let (st, act) = s.channel_connect_step(&mut p, st, SlotEvent::ConnectFailed);
    assert!(matches!(act, SlotAction::LoadHost));
    assert!(matches!(st, SlotState::Loading));
    // A failed dial leaves the address reserved.
    assert!(!p.add_pending(&a("tcp://y:1")));

    let (_, act) = s.channel_connect_step(&mut p, SlotState::Registering(a("tcp://z:1")), SlotEvent::RegisterFailed);
    assert!(matches!(act, SlotAction::Exit(StopReason::RegisterFailed)));
    let (_, act) = s.channel_connect_step(&mut p, SlotState::Attaching(a("tcp://z:1")), SlotEvent::AttachFailed);
    assert!(matches!(act, SlotAction::Exit(StopReason::AttachFailed)));
}

#[test]
fn awaits_pairs_events_with_states() {
    assert!(SlotState::Loading.awaits(&SlotEvent::HostLoaded(None)));
    assert!(!SlotState::Loading.awaits(&SlotEvent::Registered));
    assert!(SlotState::Connected(a("x")).awaits(&SlotEvent::ChannelStopped));
    assert!(!SlotState::Stopped(StopReason::AttachFailed).awaits(&SlotEvent::ChannelStopped));
}
