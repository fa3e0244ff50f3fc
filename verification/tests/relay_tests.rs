use chat_relay::AllowedOrigins;
use chat_relay::ChatMessage;
use chat_relay::Frame;
use chat_relay::FrameAction;
use chat_relay::HistoryBuffer;
use chat_relay::Hub;
use chat_relay::SessionState;
use chat_relay::clone_message;
use chat_relay::encode_message;
use chat_relay::replay_frames;
use chat_relay::session_accept;
use chat_relay::session_on_frame;

fn bytes(s: &str) -> Vec<u8> {
    s.as_bytes().to_vec()
}

fn msg(user: &str, text: &str, ts: i64) -> ChatMessage {
    ChatMessage { user: bytes(user), text: bytes(text), ts }
}

fn same(a: &ChatMessage, b: &ChatMessage) -> bool {
    a.user == b.user && a.text == b.text && a.ts == b.ts
}

#[test]
fn history_is_bounded_and_evicts_oldest() {
    let mut h = HistoryBuffer::new(2);
    h.append(msg("u", "a", 1));
    assert_eq!(h.snapshot().len(), 1);
    h.append(msg("u", "b", 2));
    assert_eq!(h.snapshot().len(), 2);
    h.append(msg("u", "c", 3));
    let snap = h.snapshot();
    assert_eq!(snap.len(), 2);
    assert!(same(&snap[0], &msg("u", "b", 2)));
    assert!(same(&snap[1], &msg("u", "c", 3)));
    assert!(!snap.iter().any(|m| m.text == bytes("a")));
}

#[test]
fn history_seed_restores_chronological_order() {
    // The durable store lists newest first: c, b, a.
    let records = vec![msg("u", "c", 3), msg("u", "b", 2), msg("u", "a", 1)];
    let h = HistoryBuffer::seed(10, &records);
    let snap = h.snapshot();
    assert_eq!(snap.len(), 3);
    assert!(same(&snap[0], &msg("u", "a", 1)));
    assert!(same(&snap[1], &msg("u", "b", 2)));
    assert!(same(&snap[2], &msg("u", "c", 3)));
}

#[test]
fn history_seed_respects_capacity() {
    let records = vec![msg("u", "c", 3), msg("u", "b", 2), msg("u", "a", 1)];
    let h = HistoryBuffer::seed(2, &records);
    let snap = h.snapshot();
    assert_eq!(snap.len(), 2);
    assert!(same(&snap[0], &msg("u", "b", 2)));
    assert!(same(&snap[1], &msg("u", "c", 3)));
}

#[test]
fn hub_delivers_in_publish_order() {
    let mut hub = Hub::new(16);
    let id = hub.subscribe();
    hub.publish(&msg("u", "a", 1));
    hub.publish(&msg("u", "b", 2));
    hub.publish(&msg("u", "c", 3));
    let got = hub.drain(id);
    assert_eq!(got.len(), 3);
    assert!(same(&got[0], &msg("u", "a", 1)));
    assert!(same(&got[1], &msg("u", "b", 2)));
    assert!(same(&got[2], &msg("u", "c", 3)));
}

#[test]
fn hub_late_subscriber_gets_no_replay() {
    let mut hub = Hub::new(16);
    hub.publish(&msg("u", "a", 1));
    let id = hub.subscribe();
    hub.publish(&msg("u", "b", 2));
    let got = hub.drain(id);
    assert_eq!(got.len(), 1);
    assert!(same(&got[0], &msg("u", "b", 2)));
}

#[test]
fn hub_overflow_drops_only_oldest() {
    let mut hub = Hub::new(2);
    let id = hub.subscribe();
    hub.publish(&msg("u", "a", 1));
    hub.publish(&msg("u", "b", 2));
    hub.publish(&msg("u", "c", 3));
    let got = hub.drain(id);
    assert_eq!(got.len(), 2);
    assert!(same(&got[0], &msg("u", "b", 2)));
    assert!(same(&got[1], &msg("u", "c", 3)));
}

#[test]
fn hub_slow_consumer_does_not_affect_others() {
    let mut hub = Hub::new(2);
    let fast = hub.subscribe();
    let slow = hub.subscribe();
    hub.publish(&msg("u", "a", 1));
    hub.publish(&msg("u", "b", 2));
    let got_fast = hub.drain(fast);
    assert_eq!(got_fast.len(), 2);
    hub.publish(&msg("u", "c", 3));
    let got_fast2 = hub.drain(fast);
    assert_eq!(got_fast2.len(), 1);
    assert!(same(&got_fast2[0], &msg("u", "c", 3)));
    let got_slow = hub.drain(slow);
    assert_eq!(got_slow.len(), 2);
    assert!(same(&got_slow[0], &msg("u", "b", 2)));
    assert!(same(&got_slow[1], &msg("u", "c", 3)));
}

#[test]
fn hub_publish_all_batches_in_order() {
    let mut hub = Hub::new(8);
    let id = hub.subscribe();
    let batch = vec![msg("u", "a", 1), msg("u", "b", 2)];
    hub.publish_all(&batch);
    let got = hub.drain(id);
    assert_eq!(got.len(), 2);
    assert!(same(&got[0], &msg("u", "a", 1)));
    assert!(same(&got[1], &msg("u", "b", 2)));
}

#[test]
fn session_valid_text_broadcasts_with_server_time() {
    let (next, action) = session_on_frame(
        &SessionState::Active,
        &Frame::Text(bytes("{\"user\":\"bob\",\"text\":\"hey\",\"ts\":1}")),
        777,
    );
    assert_eq!(next, SessionState::Active);
    match action {
        FrameAction::Broadcast(m) => {
            assert_eq!(m.user, bytes("bob"));
            assert_eq!(m.text, bytes("hey"));
            // Server-assigned time: the client's "ts" member is ignored.
            assert_eq!(m.ts, 777);
        },
        _ => panic!("expected a broadcast"),
    }
}

#[test]
fn session_invalid_text_changes_nothing() {
    let mut hub = Hub::new(8);
    let id = hub.subscribe();
    let mut history = HistoryBuffer::new(8);
    let (next, action) = session_on_frame(
        &SessionState::Active,
        &Frame::Text(bytes("{\"user\":\"bob\"}")),
        777,
    );
    // The runtime acts only on Broadcast; an ignored frame leaves both the
    // hub and the history untouched and the session stays active.
    assert_eq!(next, SessionState::Active);
    assert!(matches!(action, FrameAction::Ignore));
    assert_eq!(hub.drain(id).len(), 0);
    assert_eq!(history.snapshot().len(), 0);
    history.append(msg("u", "later", 1));
    assert_eq!(history.snapshot().len(), 1);
}

#[test]
fn session_ping_is_answered_close_closes() {
    let (next, action) = session_on_frame(&SessionState::Active, &Frame::Ping(vec![1, 2]), 0);
    assert_eq!(next, SessionState::Active);
    match action {
        FrameAction::Pong(p) => assert_eq!(p, vec![1, 2]),
        _ => panic!("expected a pong"),
    }
    let (next2, action2) = session_on_frame(&SessionState::Active, &Frame::Close, 0);
    assert_eq!(next2, SessionState::Closed);
    assert!(matches!(action2, FrameAction::CloseReply));
    let (next3, action3) = session_on_frame(&SessionState::Closed, &Frame::Text(bytes("x")), 0);
    assert_eq!(next3, SessionState::Closed);
    assert!(matches!(action3, FrameAction::Ignore));
    let (next4, action4) = session_on_frame(&SessionState::Active, &Frame::Other, 0);
    assert_eq!(next4, SessionState::Active);
    assert!(matches!(action4, FrameAction::Ignore));
}

#[test]
fn accept_refused_origin_allocates_nothing() {
    let origins = AllowedOrigins::from_config(&bytes("example.com"));
    let mut hub = Hub::new(8);
    let refused = session_accept(&origins, Some(&bytes("https://evil.com")), &mut hub);
    assert!(refused.is_none());
    let admitted = session_accept(&origins, Some(&bytes("https://example.com")), &mut hub);
    let (id, state) = admitted.expect("admitted");
    // The refused attempt created no subscription: the first one gets id 0.
    assert_eq!(id, 0);
    assert_eq!(state, SessionState::Active);
    let refused2 = session_accept(&origins, None, &mut hub);
    assert!(refused2.is_none());
}

#[test]
fn replay_serializes_snapshot_in_order() {
    let mut h = HistoryBuffer::new(4);
    h.append(msg("u", "a", 1));
    h.append(msg("u", "b", 2));
    let frames = replay_frames(&h.snapshot());
    assert_eq!(frames.len(), 2);
    assert_eq!(frames[0], encode_message(&msg("u", "a", 1)));
    assert_eq!(frames[1], encode_message(&msg("u", "b", 2)));
}

#[test]
fn end_to_end_replay_and_live_stream() {
    // Empty history of capacity 2; an early subscriber; then A, B, C arrive.
    let mut hub = Hub::new(16);
    let mut history = HistoryBuffer::new(2);
    let early = hub.subscribe();
    let inputs = [("a", 1i64), ("b", 2), ("c", 3)];
    for (text, ts) in inputs.iter() {
        let frame = Frame::Text(encode_inbound("u", text));
        let (next, action) = session_on_frame(&SessionState::Active, &frame, *ts);
        assert_eq!(next, SessionState::Active);
        match action {
            FrameAction::Broadcast(m) => {
                history.append(clone_message(&m));
                hub.publish(&m);
            },
            _ => panic!("expected a broadcast"),
        }
    }
    // A new subscriber's replay snapshot is [B, C].
    let snap = history.snapshot();
    assert_eq!(snap.len(), 2);
    assert_eq!(snap[0].text, bytes("b"));
    assert_eq!(snap[1].text, bytes("c"));
    // The early subscriber receives A, B, C in order on its live stream.
    let got = hub.drain(early);
    assert_eq!(got.len(), 3);
    assert_eq!(got[0].text, bytes("a"));
    assert_eq!(got[1].text, bytes("b"));
    assert_eq!(got[2].text, bytes("c"));
}

fn encode_inbound(user: &str, text: &str) -> Vec<u8> {
    let mut s = String::new();
    s.push_str("{\"user\":\"");
    s.push_str(user);
    s.push_str("\",\"text\":\"");
    s.push_str(text);
    s.push_str("\"}");
    s.into_bytes()
}
