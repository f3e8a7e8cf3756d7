use darkfi::net::p2p::{run_begin, run_step, RunAction, RunEvent, RunState};

fn trace(peers: usize, answer: impl Fn(&RunAction<String>) -> RunEvent<String>) -> Vec<String> {
    let (mut state, mut action) = run_begin::<String>(peers);
    let mut out = Vec::new();
    loop {
        out.push(format!("{:?}", action));
        if let RunAction::Exit(_) = action {
            return out;
        }
        let event = answer(&action);
        assert!(state.awaits(peers, &event));
        let (s, a) = run_step(peers, state, event);
        state = s;
        action = a;
    }
}

#[test]
fn run_order_when_all_succeed() {
    let got = trace(2, |_| RunEvent::Done);
    let want: Vec<String> = [
        "ConnectManual(0)", "ConnectManual(1)", "StartInbound", "StartOutbound", "WaitForStop",
        "StopManual", "StopInbound", "StopOutbound", "Exit(Ok(()))",
    ]
    .iter()
    .map(|s| s.to_string())
    .collect();
    assert_eq!(got, want);
}

#[test]
fn run_without_manual_peers() {
    let got = trace(0, |_| RunEvent::Done);
    assert_eq!(got[0], "StartInbound");
    assert_eq!(got.len(), 7);
}

#[test]
fn run_inbound_failure_returns_its_error() {
    let got = trace(1, |a| {
        if matches!(a, RunAction::StartInbound) {
            RunEvent::Failed("inbound down".to_string())
        } else {
            RunEvent::Done
        }
    });
    assert_eq!(got, vec!["ConnectManual(0)", "StartInbound", "Exit(Err(\"inbound down\"))"]);
}

#[test]
fn run_outbound_failure_returns_its_error() {
    let got = trace(0, |a| {
        if matches!(a, RunAction::StartOutbound) {
            RunEvent::Failed("outbound down".to_string())
        } else {
            RunEvent::Done
        }
    });
    assert_eq!(got, vec!["StartInbound", "StartOutbound", "Exit(Err(\"outbound down\"))"]);
}

#[test]
fn run_awaits_only_what_it_asked_for() {
    let (s, a) = run_step(0, RunState::StartingOutbound, RunEvent::Failed(7u8));
    assert!(matches!(s, RunState::Finished));
    assert!(matches!(a, RunAction::Exit(Err(7))));
    assert!(!RunState::Finished.awaits(0, &RunEvent::<u8>::Done));
    assert!(!RunState::Running.awaits(0, &RunEvent::Failed(1u8)));
    assert!(!RunState::ConnectingManual(0).awaits(0, &RunEvent::<u8>::Done));
}
