use mc_scanner::scanner::{Async, Naive, ScanEvent};
use mc_scanner::slp::StatusResponse;
use mc_scanner::state::ProgramState;

fn empty_response() -> StatusResponse {
    StatusResponse { version: None, players: None, description: None, favicon: None, secure: Some(true) }
}

#[test]
fn transmissions_are_counted() {
    let mut state = ProgramState::new();
    state.record(ScanEvent::Transmitted(0x0a000001));
    state.record(ScanEvent::Transmitted(0x0a000002));
    assert_eq!(state.transmitted, 2);
    assert!(state.discovered.is_empty());
}

#[test]
fn discoveries_are_appended_in_order() {
    let mut state = ProgramState::default();
    state.record(ScanEvent::Discovered(7, empty_response()));
    state.record(ScanEvent::Transmitted(7));
    state.record(ScanEvent::Discovered(9, empty_response()));
    assert_eq!(state.transmitted, 1);
    let ips: Vec<u32> = state.discovered.iter().map(|(ip, _)| *ip).collect();
    assert_eq!(ips, vec![7, 9]);
    assert_eq!(state.discovered[1].1.secure, Some(true));
}

#[test]
fn scanner_configurations_keep_their_settings() {
    let naive = Naive::new(25565, 32767);
    assert_eq!(naive.port, 25565);
    assert_eq!(naive.threads, 32767);
    let asynchronous = Async::new(40000, 25565);
    assert_eq!(asynchronous.source_port, 40000);
    assert_eq!(asynchronous.target_port, 25565);
}
