use clippers::session::{Action, Event, Session, SessionError, MAX_OFFERS, MAX_PUBLISH_DISPATCHES};
use clippers::type_map::TypeMap;

fn step(session: &mut Session, events: Vec<Event>) -> Vec<Action> {
    events.into_iter().map(|e| session.handle_event(e)).collect()
}

#[test]
fn wait_returns_only_after_selection() {
    let mut s = Session::new();
    s.begin_wait();
    step(&mut s, vec![Event::OfferAnnounced(7), Event::OfferType(7, "text/plain".to_string())]);
    assert!(!s.selection_received());
    step(&mut s, vec![Event::SelectionChanged(Some(7))]);
    assert!(s.selection_received());
    assert_eq!(s.list_types(), vec!["text/plain".to_string()]);
    assert_eq!(s.read_target().unwrap(), 7);
}

#[test]
fn begin_wait_forgets_earlier_selection() {
    let mut s = Session::new();
    step(&mut s, vec![Event::OfferAnnounced(1), Event::SelectionChanged(Some(1))]);
    assert!(s.selection_received());
    s.begin_wait();
    assert!(!s.selection_received());
}

#[test]
fn publish_serves_each_type_once() {
    let mut s = Session::new();
    let mut types = TypeMap::new();
    types.insert("text/plain".to_string(), b"x".to_vec());
    types.insert("text/html".to_string(), b"<b>x</b>".to_vec());
    let advertised = s.begin_publish(types);
    assert_eq!(advertised, vec!["text/plain".to_string(), "text/html".to_string()]);
    assert!(!s.publish_complete());
    match s.handle_event(Event::SendRequested("text/plain".to_string())) {
        Action::Write(b) => assert_eq!(b, b"x".to_vec()),
        Action::Ignore => panic!("expected bytes"),
    }
    match s.handle_event(Event::SendRequested("text/html".to_string())) {
        Action::Write(b) => assert_eq!(b, b"<b>x</b>".to_vec()),
        Action::Ignore => panic!("expected bytes"),
    }
    assert!(s.publish_complete());
    assert!(matches!(s.handle_event(Event::SendRequested("text/plain".to_string())), Action::Ignore));
    assert!(s.publish_complete());
}

#[test]
fn unknown_send_is_ignored() {
    let mut s = Session::new();
    assert!(matches!(s.handle_event(Event::SendRequested("image/png".to_string())), Action::Ignore));
}

#[test]
fn publish_stops_at_bound() {
    let mut s = Session::new();
    let mut types = TypeMap::new();
    types.insert("text/plain".to_string(), b"x".to_vec());
    s.begin_publish(types);
    assert!(!s.publish_finished(0));
    assert!(!s.publish_finished(MAX_PUBLISH_DISPATCHES - 1));
    assert!(s.publish_finished(MAX_PUBLISH_DISPATCHES));
}

#[test]
fn no_selection_is_an_error() {
    let s = Session::new();
    assert!(matches!(s.read_target(), Err(SessionError::NoSelection)));
    assert!(s.list_types().is_empty());
}

#[test]
fn list_types_without_repeats() {
    let mut s = Session::new();
    step(
        &mut s,
        vec![
            Event::OfferAnnounced(3),
            Event::OfferType(3, "a".to_string()),
            Event::OfferType(3, "b".to_string()),
            Event::OfferType(3, "a".to_string()),
            Event::SelectionChanged(Some(3)),
        ],
    );
    assert_eq!(s.list_types(), vec!["a".to_string(), "b".to_string()]);
}

#[test]
fn primary_selection_drops_its_offer() {
    let mut s = Session::new();
    step(
        &mut s,
        vec![
            Event::OfferAnnounced(4),
            Event::OfferType(4, "text/plain".to_string()),
            Event::PrimarySelectionChanged(Some(4)),
            Event::SelectionChanged(Some(4)),
        ],
    );
    assert!(s.list_types().is_empty());
}

#[test]
fn primary_selection_keeps_current_selection() {
    let mut s = Session::new();
    step(
        &mut s,
        vec![
            Event::OfferAnnounced(4),
            Event::OfferType(4, "text/plain".to_string()),
            Event::SelectionChanged(Some(4)),
            Event::PrimarySelectionChanged(Some(4)),
            Event::PrimarySelectionChanged(None),
        ],
    );
    assert_eq!(s.list_types(), vec!["text/plain".to_string()]);
}

#[test]
fn offers_are_bounded_and_selection_survives() {
    let mut s = Session::new();
    step(&mut s, vec![Event::OfferAnnounced(100), Event::OfferType(100, "x".to_string())]);
    step(&mut s, vec![Event::SelectionChanged(Some(100))]);
    for id in 0..(3 * MAX_OFFERS as u32) {
        step(&mut s, vec![Event::OfferAnnounced(id)]);
    }
    assert_eq!(s.list_types(), vec!["x".to_string()]);
    // The oldest offers were evicted.
    step(&mut s, vec![Event::OfferType(0, "y".to_string()), Event::SelectionChanged(Some(0))]);
    assert!(s.list_types().is_empty());
}

#[test]
fn cleared_selection_lists_nothing() {
    let mut s = Session::new();
    step(&mut s, vec![Event::OfferAnnounced(1), Event::OfferType(1, "t".to_string()), Event::SelectionChanged(Some(1))]);
    s.begin_wait();
    step(&mut s, vec![Event::SelectionChanged(None)]);
    assert!(s.selection_received());
    assert!(s.list_types().is_empty());
}

#[test]
fn reannounced_offer_starts_empty() {
    let mut s = Session::new();
    step(&mut s, vec![Event::OfferAnnounced(1), Event::OfferType(1, "t".to_string()), Event::OfferAnnounced(1), Event::SelectionChanged(Some(1))]);
    assert!(s.list_types().is_empty());
}
