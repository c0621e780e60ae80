use llama_bot::bot::{MessageBody, RoomEvent, RouteAction, Router, SlotState};

fn text(sender: &str, room: &str, body: &str) -> RoomEvent {
    RoomEvent {
        sender: sender.to_string(),
        room_id: room.to_string(),
        content: MessageBody::Text { body: body.to_string(), formatted: None },
    }
}

fn own() -> String {
    "@bot:example.org".to_string()
}

fn router_with_ready(target: u8) -> Router {
    let mut r = Router::new(target);
    for w in 0..target as usize {
        assert!(r.worker_ready(w));
    }
    r
}

fn ask(r: &mut Router, room: &str, body: &str) -> RouteAction {
    r.route(&own(), &text("@alice:example.org", room, body))
}

#[test]
fn new_router_spawns_every_slot() {
    let r = Router::new(4);
    assert_eq!(r.slot_count(), 4);
    assert_eq!(r.room_count(), 0);
    for w in 0..4 {
        assert_eq!(r.slot_state(w), SlotState::Spawning);
    }
    assert!(r.ready_workers().is_empty());
}

#[test]
fn worker_ready_only_for_spawning_slots() {
    let mut r = Router::new(2);
    assert!(r.worker_ready(1));
    assert!(!r.worker_ready(1));
    assert!(!r.worker_ready(7));
    assert_eq!(r.ready_workers(), vec![1]);
    assert_eq!(r.slot_state(1), SlotState::Ready);
}

#[test]
fn own_messages_are_ignored() {
    let mut r = router_with_ready(2);
    let a = r.route(&own(), &text("@bot:example.org", "!room", "hi"));
    assert!(matches!(a, RouteAction::Ignore));
    assert_eq!(r.room_count(), 0);
    assert_eq!(r.ready_workers(), vec![0, 1]);
}

#[test]
fn first_message_creates_room_with_front_worker() {
    let mut r = router_with_ready(2);
    match ask(&mut r, "!room", "hello") {
        RouteAction::Ask { room, worker, question } => {
            assert_eq!(room, 0);
            assert_eq!(worker, 0);
            assert_eq!(question, "hello");
        }
        _ => panic!("expected a question"),
    }
    assert_eq!(r.room_count(), 1);
    assert_eq!(r.room_id(0), "!room");
    assert_eq!(r.room_worker(0), Some(0));
    assert!(r.room_active(0));
    assert_eq!(r.slot_state(0), SlotState::Busy);
    assert_eq!(r.ready_workers(), vec![1]);
    let b = r.route(&own(), &text("@bob:example.org", "!room", "again"));
    assert!(matches!(b, RouteAction::Ask { room: 0, worker: 0, .. }));
    assert_eq!(r.room_count(), 1);
}

#[test]
fn formatted_body_is_preferred() {
    let mut r = router_with_ready(1);
    let ev = RoomEvent {
        sender: "@alice:example.org".to_string(),
        room_id: "!room".to_string(),
        content: MessageBody::Text { body: "plain".to_string(), formatted: Some("<b>rich</b>".to_string()) },
    };
    match r.route(&own(), &ev) {
        RouteAction::Ask { question, .. } => assert_eq!(question, "<b>rich</b>"),
        _ => panic!("expected a question"),
    }
}

#[test]
fn room_is_registered_while_workers_are_spawning() {
    let mut r = Router::new(1);
    assert!(matches!(ask(&mut r, "!room", "hello"), RouteAction::AwaitWorker { room: 0 }));
    assert_eq!(r.room_count(), 1);
    assert_eq!(r.room_worker(0), None);
    assert!(r.worker_ready(0));
    assert!(matches!(ask(&mut r, "!room", "hello"), RouteAction::Ask { room: 0, worker: 0, .. }));
    assert_eq!(r.room_count(), 1);
}

#[test]
fn rooms_beyond_the_workers_share_the_least_loaded_one() {
    let mut r = router_with_ready(2);
    ask(&mut r, "!a", "hi");
    ask(&mut r, "!b", "hi");
    match ask(&mut r, "!c", "hi") {
        RouteAction::Ask { room, worker, .. } => {
            assert_eq!(room, 2);
            assert_eq!(worker, 0);
        }
        _ => panic!("expected a question"),
    }
    assert!(matches!(ask(&mut r, "!d", "hi"), RouteAction::Ask { room: 3, worker: 1, .. }));
    assert!(matches!(ask(&mut r, "!e", "hi"), RouteAction::Ask { room: 4, worker: 0, .. }));
    assert_eq!(r.room_count(), 5);
}

#[test]
fn reset_kills_the_worker_and_takes_the_next_ready_one() {
    let mut r = router_with_ready(3);
    ask(&mut r, "!a", "hi");
    match ask(&mut r, "!a", "!reset") {
        RouteAction::Reset { room, killed, replacement } => {
            assert_eq!(room, 0);
            assert_eq!(killed, Some(0));
            assert_eq!(replacement, Some(1));
        }
        _ => panic!("expected a reset"),
    }
    assert_eq!(r.slot_state(0), SlotState::Spawning);
    assert_eq!(r.room_worker(0), Some(1));
    assert_eq!(r.ready_workers(), vec![2]);
}

#[test]
fn reset_with_every_slot_spawning_leaves_room_without_worker() {
    let mut r = router_with_ready(1);
    ask(&mut r, "!a", "hi");
    let a = ask(&mut r, "!a", "!reset");
    assert!(matches!(a, RouteAction::Reset { room: 0, killed: Some(0), replacement: None }));
    assert_eq!(r.room_worker(0), None);
    assert!(matches!(ask(&mut r, "!a", "hi"), RouteAction::AwaitWorker { room: 0 }));
    assert!(r.worker_ready(0));
    assert!(matches!(ask(&mut r, "!a", "hi"), RouteAction::Ask { room: 0, worker: 0, .. }));
}

#[test]
fn reset_of_a_shared_worker_frees_every_room_it_served() {
    let mut r = router_with_ready(2);
    ask(&mut r, "!a", "hi");
    ask(&mut r, "!b", "hi");
    ask(&mut r, "!c", "hi"); // every slot busy: shares worker 0 with !a
    let a = ask(&mut r, "!a", "!reset");
    assert!(matches!(a, RouteAction::Reset { room: 0, killed: Some(0), replacement: None }));
    assert_eq!(r.room_worker(0), None);
    assert_eq!(r.room_worker(2), None);
    assert_eq!(r.slot_state(0), SlotState::Spawning);
    // while worker 0 restarts, !c waits instead of sharing worker 1
    assert!(matches!(ask(&mut r, "!c", "hi"), RouteAction::AwaitWorker { room: 2 }));
    assert!(r.worker_ready(0));
    assert_eq!(r.room_worker(0), Some(0));
    // now every slot is busy again: !c shares the least loaded worker
    assert!(matches!(ask(&mut r, "!c", "hi"), RouteAction::Ask { room: 2, worker: 0, .. }));
}

#[test]
fn new_room_waits_for_the_worker_being_started() {
    let mut r = Router::new(2);
    assert!(r.worker_ready(0));
    assert!(matches!(ask(&mut r, "!a", "hi"), RouteAction::Ask { room: 0, worker: 0, .. }));
    assert!(matches!(ask(&mut r, "!b", "hi"), RouteAction::AwaitWorker { room: 1 }));
    assert_eq!(r.room_worker(1), None);
    assert!(r.worker_ready(1));
    assert_eq!(r.room_worker(1), Some(1));
    assert!(r.ready_workers().is_empty());
    assert!(matches!(ask(&mut r, "!b", "hi"), RouteAction::Ask { room: 1, worker: 1, .. }));
}

#[test]
fn reset_while_every_other_worker_is_busy_waits_for_the_restarted_one() {
    let mut r = router_with_ready(2);
    ask(&mut r, "!a", "hi");
    ask(&mut r, "!b", "hi");
    let a = ask(&mut r, "!a", "!reset");
    assert!(matches!(a, RouteAction::Reset { room: 0, killed: Some(0), replacement: None }));
    assert_eq!(r.room_worker(1), Some(1));
    assert!(matches!(ask(&mut r, "!a", "hi"), RouteAction::AwaitWorker { room: 0 }));
    assert!(matches!(ask(&mut r, "!b", "hi"), RouteAction::Ask { room: 1, worker: 1, .. }));
    assert!(r.worker_ready(0));
    assert_eq!(r.room_worker(0), Some(0));
    assert!(r.ready_workers().is_empty());
    assert!(matches!(ask(&mut r, "!a", "hi"), RouteAction::Ask { room: 0, worker: 0, .. }));
}

#[test]
fn help_lists_the_commands() {
    let mut r = router_with_ready(1);
    match ask(&mut r, "!a", "!help") {
        RouteAction::Help { room, text } => {
            assert_eq!(room, 0);
            assert_eq!(
                text,
                "!help - Displays this.\n!start - Activates the bot.\n!stop - Terminates the bot.\n!reset - Restores the bot to its original state."
            );
        }
        _ => panic!("expected the help text"),
    }
    assert!(r.room_active(0));
}

#[test]
fn stop_and_start_switch_answering() {
    let mut r = router_with_ready(1);
    assert!(matches!(ask(&mut r, "!a", "!stop"), RouteAction::Stop { room: 0 }));
    assert!(!r.room_active(0));
    assert!(matches!(ask(&mut r, "!a", "hello"), RouteAction::Inactive { room: 0 }));
    assert!(matches!(ask(&mut r, "!a", "!start"), RouteAction::Start { room: 0 }));
    assert!(r.room_active(0));
    assert!(matches!(ask(&mut r, "!a", "hello"), RouteAction::Ask { room: 0, worker: 0, .. }));
}

#[test]
fn reset_makes_a_stopped_room_active() {
    let mut r = router_with_ready(2);
    ask(&mut r, "!a", "!stop");
    ask(&mut r, "!a", "!reset");
    assert!(r.room_active(0));
    assert!(matches!(ask(&mut r, "!a", "hello"), RouteAction::Ask { room: 0, worker: 1, .. }));
}

#[test]
fn emotes_and_other_messages() {
    let mut r = router_with_ready(2);
    let e = RoomEvent {
        sender: "@alice:example.org".to_string(),
        room_id: "!a".to_string(),
        content: MessageBody::Emote { body: "waves".to_string() },
    };
    match r.route(&own(), &e) {
        RouteAction::Emote { body } => assert_eq!(body, "waves"),
        _ => panic!("expected an emote"),
    }
    assert_eq!(r.room_worker(0), Some(0));
    let o = RoomEvent {
        sender: "@alice:example.org".to_string(),
        room_id: "!b".to_string(),
        content: MessageBody::Other,
    };
    assert!(matches!(r.route(&own(), &o), RouteAction::Unhandled));
    assert_eq!(r.room_worker(1), Some(1));
}

fn worker_total(r: &Router) -> usize {
    let spawning = (0..r.slot_count())
        .filter(|w| r.slot_state(*w) == SlotState::Spawning)
        .count();
    let mut serving: Vec<usize> = (0..r.room_count()).filter_map(|i| r.room_worker(i)).collect();
    serving.sort();
    serving.dedup();
    r.ready_workers().len() + spawning + serving.len()
}

#[test]
fn worker_count_stays_at_target() {
    let mut r = Router::new(3);
    assert_eq!(worker_total(&r), 3);
    r.worker_ready(0);
    r.worker_ready(2);
    assert_eq!(worker_total(&r), 3);
    ask(&mut r, "!one", "hi");
    ask(&mut r, "!two", "hi");
    ask(&mut r, "!three", "hi");
    assert_eq!(worker_total(&r), 3);
    ask(&mut r, "!one", "!reset");
    assert_eq!(worker_total(&r), 3);
    r.worker_ready(0);
    r.worker_ready(1);
    ask(&mut r, "!three", "hi");
    assert_eq!(worker_total(&r), 3);
    assert_eq!(r.slot_count(), 3);
}
