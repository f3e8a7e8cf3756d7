use darkfi::net::p2p::P2p;

fn a(s: &str) -> String {
    s.to_string()
}

#[test]
fn new_registry_is_empty() {
    let p: P2p<u32, (), ()> = P2p::new((), ());
    assert!(!p.is_connected(&a("tcp://1.2.3.4:1")));
    assert!(p.channels().is_empty());
    assert!(p.random_channel().is_none());
    assert!(!p.dnet_enabled());
}

#[test]
fn store_then_lookup() {
    let mut p: P2p<u32, (), ()> = P2p::new((), ());
    p.store(a("tcp://a:1"), 10);
    p.store(a("tcp://b:1"), 20);
    assert!(p.is_connected(&a("tcp://a:1")));
    assert!(p.is_connected(&a("tcp://b:1")));
    assert!(!p.is_connected(&a("tcp://c:1")));
    p.store(a("tcp://a:1"), 11);
    let chans = p.channels();
    assert_eq!(chans.len(), 2);
    assert!(chans.contains(&(a("tcp://a:1"), 11)));
    assert!(chans.contains(&(a("tcp://b:1"), 20)));
}

#[test]
fn remove_then_lookup() {
    let mut p: P2p<u32, (), ()> = P2p::new((), ());
    p.store(a("tcp://a:1"), 10);
    p.store(a("tcp://b:1"), 20);
    p.remove(&a("tcp://a:1"));
    assert!(!p.is_connected(&a("tcp://a:1")));
    assert!(p.is_connected(&a("tcp://b:1")));
    p.remove(&a("tcp://zzz:1"));
    assert_eq!(p.channels().len(), 1);
}

#[test]
fn pending_lock() {
    let mut p: P2p<u32, (), ()> = P2p::new((), ());
    assert!(p.add_pending(&a("tcp://a:1")));
    assert!(!p.add_pending(&a("tcp://a:1")));
    assert!(p.add_pending(&a("tcp://b:1")));
    p.remove_pending(&a("tcp://a:1"));
    assert!(p.add_pending(&a("tcp://a:1")));
    assert!(!p.is_connected(&a("tcp://a:1")));
}

#[test]
fn broadcast_reaches_every_channel_once() {
    let mut p: P2p<u32, (), ()> = P2p::new((), ());
    p.store(a("tcp://a:1"), 1);
    p.store(a("tcp://b:1"), 2);
    p.store(a("tcp://c:1"), 3);
    let mut got: Vec<u32> = p.broadcast().iter().map(|e| e.1).collect();
    got.sort();
    assert_eq!(got, vec![1, 2, 3]);
}

#[test]
fn broadcast_with_exclude_skips_listed() {
    let mut p: P2p<u32, (), ()> = P2p::new((), ());
    p.store(a("tcp://a:1"), 1);
    p.store(a("tcp://b:1"), 2);
    p.store(a("tcp://c:1"), 3);
    let exclude = vec![a("tcp://b:1"), a("tcp://x:1")];
    let mut got: Vec<String> = p.broadcast_with_exclude(&exclude).iter().map(|e| e.0.clone()).collect();
    got.sort();
    assert_eq!(got, vec![a("tcp://a:1"), a("tcp://c:1")]);
    let empty: P2p<u32, (), ()> = P2p::new((), ());
    assert!(empty.broadcast_with_exclude(&exclude).is_empty());
}

#[test]
fn random_channel_is_connected() {
    let mut p: P2p<u32, (), ()> = P2p::new((), ());
    p.store(a("tcp://a:1"), 1);
    assert_eq!(p.random_channel(), Some(&1));
    p.store(a("tcp://b:1"), 2);
    for _ in 0..50 {
        let c = *p.random_channel().unwrap();
        assert!(c == 1 || c == 2);
    }
}

#[test]
fn dnet_switch() {
    let mut p: P2p<u32, (), ()> = P2p::new((), ());
    p.store(a("tcp://a:1"), 1);
    p.dnet_enable();
    assert!(p.dnet_enabled());
    p.dnet_disable();
    assert!(!p.dnet_enabled());
    assert!(p.is_connected(&a("tcp://a:1")));
}

#[test]
fn new_keeps_settings_and_executor() {
    let p: P2p<u32, String, u8> = P2p::new(a("settings"), 7);
    assert_eq!(p.settings(), "settings");
    assert_eq!(*p.executor(), 7);
    assert!(!p.peer_discovery_running());
    assert!(!p.dnet_enabled());
    assert!(p.channels().is_empty());
}

#[test]
fn peer_discovery_flag() {
    let mut p: P2p<u32, (), ()> = P2p::new((), ());
    p.set_peer_discovery_running(true);
    assert!(p.peer_discovery_running());
    p.set_peer_discovery_running(false);
    assert!(!p.peer_discovery_running());
}

#[test]
fn remove_failed_keeps_others() {
    let mut p: P2p<u32, (), ()> = P2p::new((), ());
    p.store(a("tcp://a:1"), 1);
    p.store(a("tcp://b:1"), 2);
    p.store(a("tcp://c:1"), 3);
    p.add_pending(&a("tcp://a:1"));
    p.remove_failed(&[a("tcp://a:1"), a("tcp://c:1"), a("tcp://zz:1")]);
    assert!(!p.is_connected(&a("tcp://a:1")));
    assert!(p.is_connected(&a("tcp://b:1")));
    assert!(!p.is_connected(&a("tcp://c:1")));
    assert!(!p.add_pending(&a("tcp://a:1")));
    assert_eq!(p.channels().len(), 1);
}
