use termdash::MyTabs;
use termdash::app::{drain_events, App, LoopState, TermSize};
use termdash::events::{Event, EventQueue, Key};

fn six_tabs() -> MyTabs<'static> {
    MyTabs {
        titles: vec![
            "Welcome",
            "Personal",
            "Skills",
            "Experience",
            "Courses",
            "Looking For",
        ],
        selection: 0,
    }
}

#[test]
fn next_advances_and_wraps() {
    let mut tabs = six_tabs();
    for expected in [1usize, 2, 3, 4, 5, 0, 1] {
        tabs.next();
        assert_eq!(tabs.selection, expected);
    }
}

#[test]
fn previous_wraps_from_zero_to_last() {
    let mut tabs = six_tabs();
    tabs.previous();
    assert_eq!(tabs.selection, 5);
    tabs.previous();
    assert_eq!(tabs.selection, 4);
}

#[test]
fn next_n_times_returns_to_start() {
    let mut tabs = six_tabs();
    tabs.next();
    tabs.next();
    let start = tabs.selection;
    for _ in 0..tabs.titles.len() {
        tabs.next();
    }
    assert_eq!(tabs.selection, start);
}

#[test]
fn five_rights_then_sixth_returns_to_zero() {
    let mut app = App {
        size: TermSize { width: 80, height: 24 },
        tabs: six_tabs(),
        state: LoopState::Running,
    };
    for _ in 0..5 {
        app.handle_event(Event::KeyPress(Key::Right));
    }
    assert_eq!(app.tabs.selection, 5);
    app.handle_event(Event::KeyPress(Key::Right));
    assert_eq!(app.tabs.selection, 0);
    assert!(matches!(app.state, LoopState::Running));
}

#[test]
fn queue_is_strict_fifo() {
    let mut q = EventQueue::new();
    q.push(Event::Tick);
    q.push(Event::KeyPress(Key::Left));
    q.push(Event::Tick);
    assert_eq!(q.len(), 3);
    assert_eq!(q.pop(), Some(Event::Tick));
    assert_eq!(q.pop(), Some(Event::KeyPress(Key::Left)));
    assert_eq!(q.pop(), Some(Event::Tick));
    assert_eq!(q.pop(), None);
}

#[test]
fn quit_terminates_and_other_keys_are_ignored() {
    let mut app = App {
        size: TermSize { width: 80, height: 24 },
        tabs: six_tabs(),
        state: LoopState::Running,
    };
    app.handle_event(Event::KeyPress(Key::Char('x')));
    app.handle_event(Event::KeyPress(Key::Up));
    app.handle_event(Event::Tick);
    assert_eq!(app.tabs.selection, 0);
    assert!(matches!(app.state, LoopState::Running));
    app.handle_event(Event::KeyPress(Key::Char('q')));
    assert!(matches!(app.state, LoopState::Terminated));
    assert_eq!(app.tabs.selection, 0);
}

#[test]
fn update_size_reports_changes() {
    let mut app = App {
        size: TermSize { width: 80, height: 24 },
        tabs: six_tabs(),
        state: LoopState::Running,
    };
    assert!(!app.update_size(80, 24));
    assert!(app.update_size(120, 40));
    assert_eq!(app.size, TermSize { width: 120, height: 40 });
    assert!(!app.update_size(120, 40));
}

#[test]
fn drain_stops_at_quit_and_leaves_rest_queued() {
    let mut app = App {
        size: TermSize { width: 80, height: 24 },
        tabs: six_tabs(),
        state: LoopState::Running,
    };
    let mut q = EventQueue::new();
    q.push(Event::KeyPress(Key::Char('q')));
    q.push(Event::KeyPress(Key::Left));
    let consumed = drain_events(&mut app, &mut q);
    assert_eq!(consumed, 1);
    assert!(matches!(app.state, LoopState::Terminated));
    assert_eq!(app.tabs.selection, 0);
    assert_eq!(q.len(), 1);
    assert_eq!(q.pop(), Some(Event::KeyPress(Key::Left)));
}
