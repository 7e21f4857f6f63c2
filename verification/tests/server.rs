use broadcast_server::registry::Registry;
use broadcast_server::server::{Frame, Outbound, Server, ServerEvent};

fn text(dest: u64, bytes: &[u8]) -> Outbound {
    Outbound { dest, frame: Frame::Text(bytes.to_vec()) }
}

#[test]
fn connect_sends_one_snapshot() {
    let mut s = Server::new();
    let out = s.handle_event(ServerEvent::Connect(1));
    assert_eq!(out, vec![text(1, b"{\"value\":0}")]);
    // the second client gets its own single snapshot; nobody else hears
    let out = s.handle_event(ServerEvent::Connect(2));
    assert_eq!(out, vec![text(2, b"{\"value\":0}")]);
}

#[test]
fn snapshot_shows_state_at_connect_instant() {
    let mut s = Server::new();
    s.handle_event(ServerEvent::Connect(1));
    s.handle_event(ServerEvent::Message(1, b"{\"Add\":5}".to_vec()));
    let out = s.handle_event(ServerEvent::Connect(2));
    assert_eq!(out, vec![text(2, b"{\"value\":5}")]);
}

#[test]
fn counter_scenario_broadcasts_to_all() {
    let mut s = Server::new();
    s.handle_event(ServerEvent::Connect(1));
    s.handle_event(ServerEvent::Connect(2));

    let out = s.handle_event(ServerEvent::Message(1, b"{\"Add\":1}".to_vec()));
    assert_eq!(
        out,
        vec![
            text(1, b"{\"value\":1}"),
            text(2, b"{\"value\":1}"),
            text(1, b"{\"Add\":1}"),
        ]
    );

    let out = s.handle_event(ServerEvent::Message(2, b"{\"Subtract\":3}".to_vec()));
    assert_eq!(
        out,
        vec![
            text(1, b"{\"value\":-2}"),
            text(2, b"{\"value\":-2}"),
            text(2, b"{\"Subtract\":3}"),
        ]
    );

    let out = s.handle_event(ServerEvent::Message(1, b"\"Reset\"".to_vec()));
    assert_eq!(
        out,
        vec![
            text(1, b"{\"value\":0}"),
            text(2, b"{\"value\":0}"),
            text(1, b"\"Reset\""),
        ]
    );
    assert_eq!(s.value(), 0);
}

#[test]
fn plain_text_is_echoed_only_to_sender() {
    let mut s = Server::new();
    s.handle_event(ServerEvent::Connect(1));
    s.handle_event(ServerEvent::Connect(2));
    let out = s.handle_event(ServerEvent::Message(1, b"hello".to_vec()));
    assert_eq!(out, vec![text(1, b"hello")]);
    assert_eq!(s.value(), 0);
}

#[test]
fn disconnected_client_left_out_of_broadcasts() {
    let mut s = Server::new();
    s.handle_event(ServerEvent::Connect(1));
    s.handle_event(ServerEvent::Connect(2));
    s.handle_event(ServerEvent::Connect(3));
    let out = s.handle_event(ServerEvent::Disconnect(2));
    assert_eq!(out, vec![]);
    let out = s.handle_event(ServerEvent::Message(3, b"{\"Add\":5}".to_vec()));
    assert_eq!(
        out,
        vec![
            text(1, b"{\"value\":5}"),
            text(3, b"{\"value\":5}"),
            text(3, b"{\"Add\":5}"),
        ]
    );
    assert!(out.iter().all(|o| o.dest != 2));
}

#[test]
fn stale_disconnect_is_a_no_op() {
    let mut s = Server::new();
    s.handle_event(ServerEvent::Connect(1));
    let out = s.handle_event(ServerEvent::Disconnect(9));
    assert_eq!(out, vec![]);
    let out = s.handle_event(ServerEvent::Message(1, b"{\"Add\":2}".to_vec()));
    assert_eq!(
        out,
        vec![text(1, b"{\"value\":2}"), text(1, b"{\"Add\":2}")]
    );
}

#[test]
fn reply_to_stale_sender_is_dropped() {
    let mut s = Server::new();
    s.handle_event(ServerEvent::Connect(1));
    // a frame attributed to an identifier that was never registered:
    // nothing is delivered back to it
    let out = s.handle_event(ServerEvent::Message(9, b"hello".to_vec()));
    assert_eq!(out, vec![]);
}

#[test]
fn binary_frame_rejected_with_error_and_echo() {
    let mut s = Server::new();
    s.handle_event(ServerEvent::Connect(1));
    s.handle_event(ServerEvent::Connect(2));
    let out = s.handle_event(ServerEvent::Binary(1, vec![1, 2, 3]));
    assert_eq!(
        out,
        vec![
            text(1, b"Message format expected was text"),
            Outbound { dest: 1, frame: Frame::Binary(vec![1, 2, 3]) },
        ]
    );
    assert_eq!(s.value(), 0);
}

#[test]
fn registry_membership_follows_events() {
    let mut r = Registry::new();
    assert_eq!(r.len(), 0);
    r.register(4);
    r.register(7);
    assert!(r.contains(4));
    assert!(r.contains(7));
    assert!(!r.contains(5));
    assert_eq!(r.len(), 2);
    // registering the same identifier again changes nothing
    r.register(4);
    assert_eq!(r.len(), 2);
    r.unregister(4);
    assert!(!r.contains(4));
    assert_eq!(r.len(), 1);
    // unregistering an absent identifier is a no-op, not an error
    r.unregister(4);
    assert_eq!(r.len(), 1);
    assert_eq!(r.ids(), &vec![7]);
}

#[test]
fn client_ids_in_insertion_order() {
    let mut s = Server::new();
    s.handle_event(ServerEvent::Connect(3));
    s.handle_event(ServerEvent::Connect(1));
    s.handle_event(ServerEvent::Connect(2));
    assert_eq!(s.client_ids(), &vec![3, 1, 2]);
    s.handle_event(ServerEvent::Disconnect(1));
    assert_eq!(s.client_ids(), &vec![3, 2]);
}
