use actor_core::codec::{Payload, Value};
use actor_core::handler::Handler;
use actor_core::server::{spawn, spawn_link, Node};
use actor_core::tag::{Tag, TagSource};

#[test]
fn spawn_test() {
    let mut node = Node::new(10);
    let child = spawn(&mut node, Value::Int(0), Handler::Accumulate).unwrap();
    assert_eq!(child.request(&mut node, Value::Int(1)), Some(Value::Int(1)));
    assert_eq!(child.request(&mut node, Value::Int(2)), Some(Value::Int(3)));
    assert_eq!(child.request(&mut node, Value::Int(3)), Some(Value::Int(6)));
}

#[test]
fn spawn_link_test() {
    let mut node = Node::new(10);
    let child = spawn_link(&mut node, Value::Empty, Handler::Crash).unwrap();
    // Trigger failure: the child panics while serving, and the link unwinds
    // the current unit too.
    assert_eq!(child.request(&mut node, Value::Empty), None);
    assert!(!node.server_alive(&child));
    assert!(!node.current_unit_alive());
}

#[test]
fn unlinked_unit_survives_peer_crash() {
    let mut node = Node::new(10);
    let child = spawn(&mut node, Value::Empty, Handler::Crash).unwrap();
    assert_eq!(child.request(&mut node, Value::Empty), None);
    assert!(!node.server_alive(&child));
    assert!(node.current_unit_alive());
}

#[test]
fn crash_leaves_sibling_server_running() {
    let mut node = Node::new(10);
    let keeper = spawn(&mut node, Value::Int(5), Handler::Accumulate).unwrap();
    let crasher = spawn(&mut node, Value::Empty, Handler::Crash).unwrap();
    assert_eq!(crasher.request(&mut node, Value::Empty), None);
    assert!(node.server_alive(&keeper));
    assert_eq!(keeper.request(&mut node, Value::Int(2)), Some(Value::Int(7)));
}

#[test]
fn zero_sized_state_skips_handshake() {
    let mut node = Node::new(10);
    let child = spawn(&mut node, Value::Empty, Handler::Echo).unwrap();
    // No captured state to transfer: no handshake message was sent.
    assert_eq!(node.server_pending(&child), 0);
    // The server still answers its first request correctly.
    assert_eq!(child.request(&mut node, Value::Int(7)), Some(Value::Int(7)));
}

#[test]
fn nonzero_state_sends_one_handshake_message() {
    let mut node = Node::new(10);
    let child = spawn(&mut node, Value::Int(3), Handler::Accumulate).unwrap();
    assert_eq!(node.server_pending(&child), 1);
    assert_eq!(child.request(&mut node, Value::Int(4)), Some(Value::Int(7)));
    assert_eq!(node.server_pending(&child), 0);
}

#[test]
fn selective_receive_keeps_unrelated_messages() {
    let mut node = Node::new(10);
    let child = spawn(&mut node, Value::Int(0), Handler::Accumulate).unwrap();
    // Queue an unrelated message to self under a foreign tag first.
    let dummy = node.send_to_self(Value::Int(99));
    // The request's reply is still matched by its own tag, skipping the
    // dummy without consuming it.
    assert_eq!(child.request(&mut node, Value::Int(5)), Some(Value::Int(5)));
    assert_eq!(node.self_pending(), 1);
    let p = node.receive_self();
    assert_eq!(p.tag, dummy.value);
    assert_eq!(p.payload, Payload::Response(Value::Int(99)));
}

#[test]
fn tags_are_pairwise_distinct() {
    let mut source = TagSource::new();
    let t1 = Tag::new(&mut source);
    let t2 = Tag::new(&mut source);
    let t3 = Tag::new(&mut source);
    assert_ne!(t1.value, t2.value);
    assert_ne!(t1.value, t3.value);
    assert_ne!(t2.value, t3.value);
}

#[test]
fn node_issues_distinct_tags() {
    let mut node = Node::new(10);
    let t1 = node.send_to_self(Value::Empty);
    let t2 = node.send_to_self(Value::Empty);
    assert_ne!(t1, t2);
    let p1 = node.receive_self();
    let p2 = node.receive_self();
    assert_eq!(p1.tag, t1.value);
    assert_eq!(p2.tag, t2.value);
}

#[test]
fn spawn_reports_refused_allocation() {
    let mut node = Node::new(2);
    let first = spawn(&mut node, Value::Empty, Handler::Echo);
    assert!(first.is_ok());
    let second = spawn(&mut node, Value::Empty, Handler::Echo);
    let err = second.unwrap_err();
    // The diagnostic carries the identifier the allocation got as far as.
    assert_eq!(err.code, 2);
}

#[test]
fn request_to_dead_unit_never_answers() {
    let mut node = Node::new(10);
    let child = spawn(&mut node, Value::Empty, Handler::Crash).unwrap();
    assert_eq!(child.request(&mut node, Value::Empty), None);
    // The unit is gone; a later request gets no reply either, but the
    // handle stays a valid value.
    assert_eq!(child.request(&mut node, Value::Int(1)), None);
}

#[test]
fn mismatched_message_shape_is_fatal() {
    let mut node = Node::new(10);
    let child = spawn(&mut node, Value::Int(0), Handler::Accumulate).unwrap();
    // The accumulator statically expects integer requests; other bytes are
    // a protocol violation and abort the unit.
    assert_eq!(child.request(&mut node, Value::Empty), None);
    assert!(!node.server_alive(&child));
}

#[test]
fn handles_are_compared_by_identifier() {
    let mut node = Node::new(10);
    let a = spawn(&mut node, Value::Empty, Handler::Echo).unwrap();
    let b = spawn(&mut node, Value::Empty, Handler::Echo).unwrap();
    let a_copy = a;
    assert_eq!(a, a_copy);
    assert_ne!(a, b);
    assert_ne!(a.id(), b.id());
}

#[test]
fn echo_server_round_trips_references() {
    let mut node = Node::new(10);
    let a = spawn(&mut node, Value::Empty, Handler::Echo).unwrap();
    let b = spawn(&mut node, Value::Empty, Handler::Echo).unwrap();
    // A process reference travels inside a message and comes back intact.
    assert_eq!(
        a.request(&mut node, Value::Ref(b.id())),
        Some(Value::Ref(b.id()))
    );
}
