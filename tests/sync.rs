use vclock_peers::codec::{decode, encode, PeerMessage};
use vclock_peers::sync::{CoreError, Phase, SyncCore};

fn payload(sender: &str, clock: Vec<u64>) -> Vec<u8> {
    encode(&PeerMessage { sender: sender.as_bytes().to_vec(), clock })
}

#[test]
fn local_receive_send_scenario_through_the_core() {
    let mut core = SyncCore::new(b"server1".to_vec(), 0, 3);
    assert_eq!(core.snapshot(), vec![1, 0, 0]);
    assert_eq!(core.on_local_event(), Ok(()));
    assert_eq!(core.snapshot(), vec![2, 0, 0]);
    assert!(core.accept_connection());
    assert_eq!(core.on_inbound_payload(&payload("server2", vec![0, 5, 0])), Ok(()));
    assert_eq!(core.snapshot(), vec![3, 5, 0]);
    let sent = core.on_send_request().unwrap();
    assert_eq!(core.snapshot(), vec![4, 5, 0]);
    let m = decode(&sent, 3).unwrap();
    assert_eq!(m.sender, b"server1".to_vec());
    assert_eq!(m.clock, vec![4, 5, 0]);
}

#[test]
fn inbound_from_unknown_sender_is_merged() {
    let mut core = SyncCore::new(b"server2".to_vec(), 1, 3);
    assert!(core.accept_connection());
    assert_eq!(core.on_inbound_payload(&payload("server9", vec![3, 0, 2])), Ok(()));
    assert_eq!(core.snapshot(), vec![3, 2, 2]);
}

#[test]
fn bad_inbound_payloads_are_reported_and_change_nothing() {
    let mut core = SyncCore::new(b"server1".to_vec(), 0, 3);
    assert!(core.accept_connection());
    assert_eq!(
        core.on_inbound_payload(&payload("server2", vec![1, 2])),
        Err(CoreError::MalformedClock)
    );
    assert!(core.accept_connection());
    assert_eq!(core.on_inbound_payload(b"garbage"), Err(CoreError::MalformedMessage));
    assert!(core.accept_connection());
    assert_eq!(
        core.on_inbound_payload(&payload("server2", vec![u64::MAX, 0, 0])),
        Err(CoreError::CounterOverflow)
    );
    assert_eq!(core.snapshot(), vec![1, 0, 0]);
    assert_eq!(core.in_flight(), 0);
    assert_eq!(core.phase(), Phase::Running);
}

#[test]
fn shutdown_with_nothing_in_flight_stops_once_accepting_ends() {
    let mut core = SyncCore::new(b"server1".to_vec(), 0, 3);
    assert!(core.accepting());
    core.request_shutdown();
    assert_eq!(core.phase(), Phase::ShuttingDown);
    assert!(!core.accepting());
    core.accept_loop_exited();
    assert_eq!(core.phase(), Phase::Stopped);
}

#[test]
fn shutdown_waits_for_connections_in_flight() {
    let mut core = SyncCore::new(b"server3".to_vec(), 2, 3);
    assert!(core.accept_connection());
    core.request_shutdown();
    assert!(!core.accept_connection());
    core.accept_loop_exited();
    assert_eq!(core.phase(), Phase::ShuttingDown);
    assert_eq!(core.in_flight(), 1);
    assert_eq!(core.on_inbound_payload(&payload("server1", vec![4, 0, 0])), Ok(()));
    assert_eq!(core.snapshot(), vec![4, 0, 2]);
    assert_eq!(core.phase(), Phase::Stopped);
    assert_eq!(core.in_flight(), 0);
    assert_eq!(
        core.on_inbound_payload(&payload("server1", vec![5, 0, 0])),
        Err(CoreError::NotRunning)
    );
}

#[test]
fn local_commands_are_refused_after_shutdown() {
    let mut core = SyncCore::new(b"server1".to_vec(), 0, 3);
    core.request_shutdown();
    assert_eq!(core.on_local_event(), Err(CoreError::NotRunning));
    assert_eq!(core.on_send_request(), Err(CoreError::NotRunning));
    assert_eq!(core.snapshot(), vec![1, 0, 0]);
    assert_eq!(core.participants(), 3);
}

#[test]
fn own_entry_counts_every_update_in_any_order() {
    let inbound = vec![payload("server2", vec![0, 3, 0]), payload("server3", vec![0, 1, 6])];
    let mut a = SyncCore::new(b"server1".to_vec(), 0, 3);
    let mut b = SyncCore::new(b"server1".to_vec(), 0, 3);
    for p in inbound.iter() {
        assert!(a.accept_connection());
        assert_eq!(a.on_inbound_payload(p), Ok(()));
    }
    assert_eq!(a.on_local_event(), Ok(()));
    assert_eq!(b.on_local_event(), Ok(()));
    for p in inbound.iter().rev() {
        assert!(b.accept_connection());
        assert_eq!(b.on_inbound_payload(p), Ok(()));
    }
    assert_eq!(a.snapshot(), b.snapshot());
    assert_eq!(a.snapshot(), vec![4, 3, 6]);
}

#[test]
fn peer_with_a_quote_in_its_id_is_understood() {
    let mut sender = SyncCore::new(b"a\"b".to_vec(), 1, 3);
    let sent = sender.on_send_request().unwrap();
    let mut receiver = SyncCore::new(b"server1".to_vec(), 0, 3);
    assert!(receiver.accept_connection());
    assert_eq!(receiver.on_inbound_payload(&sent), Ok(()));
    assert_eq!(receiver.snapshot(), vec![2, 2, 0]);
    assert_eq!(decode(&sent, 3).unwrap().sender, b"a\"b".to_vec());
}
