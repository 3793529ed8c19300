use std::cell::RefCell;

use snake::event_emitter::EventPool;
use snake::selection_window::{SelectionWindowEvent, SelectionWindowEventId};

#[test]
fn pool_delivers_in_push_order() {
    let mut pool: EventPool<SelectionWindowEvent> =
        EventPool::new_listened(&[SelectionWindowEventId::SelectId]);
    pool.push_event(SelectionWindowEvent::Select("first".to_string()));
    pool.push_event(SelectionWindowEvent::Select("second".to_string()));
    pool.push_event(SelectionWindowEvent::Select("third".to_string()));
    let seen: RefCell<Vec<String>> = RefCell::new(Vec::new());
    let handler = |event: SelectionWindowEvent| {
        let SelectionWindowEvent::Select(name) = event;
        seen.borrow_mut().push(name);
    };
    pool.handle_events(&handler);
    assert_eq!(
        seen.into_inner(),
        vec!["first".to_string(), "second".to_string(), "third".to_string()]
    );
}

#[test]
fn draining_twice_delivers_nothing_new() {
    let mut pool: EventPool<SelectionWindowEvent> =
        EventPool::new_listened(&[SelectionWindowEventId::SelectId]);
    pool.push_event(SelectionWindowEvent::Select("only".to_string()));
    let count: RefCell<usize> = RefCell::new(0);
    let handler = |_event: SelectionWindowEvent| {
        *count.borrow_mut() += 1;
    };
    pool.handle_events(&handler);
    pool.handle_events(&handler);
    assert_eq!(count.into_inner(), 1);
}

#[test]
fn unlistened_events_are_dropped() {
    let mut pool: EventPool<SelectionWindowEvent> = EventPool::new();
    pool.push_event(SelectionWindowEvent::Select("ignored".to_string()));
    let count: RefCell<usize> = RefCell::new(0);
    let handler = |_event: SelectionWindowEvent| {
        *count.borrow_mut() += 1;
    };
    pool.handle_events(&handler);
    assert_eq!(count.into_inner(), 0);
}

#[test]
fn listen_accepts_from_then_on() {
    let mut pool: EventPool<SelectionWindowEvent> = EventPool::new();
    pool.push_event(SelectionWindowEvent::Select("before".to_string()));
    pool.listen(&[SelectionWindowEventId::SelectId]);
    pool.push_event(SelectionWindowEvent::Select("after".to_string()));
    let seen: RefCell<Vec<String>> = RefCell::new(Vec::new());
    let handler = |event: SelectionWindowEvent| {
        let SelectionWindowEvent::Select(name) = event;
        seen.borrow_mut().push(name);
    };
    pool.handle_events(&handler);
    assert_eq!(seen.into_inner(), vec!["after".to_string()]);
}

#[test]
fn clear_discards_pending_events() {
    let mut pool: EventPool<SelectionWindowEvent> =
        EventPool::new_listened(&[SelectionWindowEventId::SelectId]);
    pool.push_event(SelectionWindowEvent::Select("gone".to_string()));
    pool.clear();
    let count: RefCell<usize> = RefCell::new(0);
    let handler = |_event: SelectionWindowEvent| {
        *count.borrow_mut() += 1;
    };
    pool.handle_events(&handler);
    assert_eq!(count.into_inner(), 0);
}
