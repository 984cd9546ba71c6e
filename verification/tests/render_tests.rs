use termdash::app::{App, LoopState, TermSize};
use termdash::buffer::Buffer;
use termdash::events::{Event, EventQueue, Key};
use termdash::layout::{Constraint, Direction, Region};
use termdash::style::{Cell, Color, Style};
use termdash::widgets::{render, ContentNode, WidgetKind};
use termdash::MyTabs;

fn chars(s: &str) -> Vec<char> {
    s.chars().collect()
}

fn plain() -> Style {
    Style { fg: Color::Reset, bg: Color::Reset, bold: false }
}

fn region(x: u16, y: u16, width: u16, height: u16) -> Region {
    Region { x, y, width, height }
}

fn row_text(buf: &Buffer, y: u16) -> String {
    let mut s = String::new();
    for x in 0..buf.width {
        s.push(buf.get(x, y).ch);
    }
    s
}

fn buffers_equal(a: &Buffer, b: &Buffer) -> bool {
    if a.width != b.width || a.height != b.height {
        return false;
    }
    for y in 0..a.height {
        for x in 0..a.width {
            if a.get(x, y) != b.get(x, y) {
                return false;
            }
        }
    }
    true
}

fn paragraph_block(title: &str, text: &str, wrap: bool) -> ContentNode {
    ContentNode::Block {
        title: chars(title),
        title_style: Style { fg: Color::Green, bg: Color::Reset, bold: true },
        bordered: true,
        kind: WidgetKind::Paragraph { text: chars(text), wrap },
    }
}

#[test]
fn bordered_paragraph_draws_frame_title_and_text() {
    let node = paragraph_block("T", "hi", true);
    let mut buf = Buffer::new(6, 4);
    render(&node, region(0, 0, 6, 4), &mut buf);
    assert_eq!(row_text(&buf, 0), "+T---+");
    assert_eq!(row_text(&buf, 1), "|hi  |");
    assert_eq!(row_text(&buf, 2), "|    |");
    assert_eq!(row_text(&buf, 3), "+----+");
}

#[test]
fn long_title_is_truncated_to_the_top_edge() {
    let node = paragraph_block("LONGTITLE", "", true);
    let mut buf = Buffer::new(6, 3);
    render(&node, region(0, 0, 6, 3), &mut buf);
    assert_eq!(row_text(&buf, 0), "+LONG+");
}

#[test]
fn render_stays_inside_its_region() {
    let node = paragraph_block("T", "filler text", true);
    let mut buf = Buffer::new(10, 6);
    let r = region(2, 1, 5, 3);
    render(&node, r, &mut buf);
    for y in 0..6u16 {
        for x in 0..10u16 {
            let inside = x >= 2 && x < 7 && y >= 1 && y < 4;
            if !inside {
                assert_eq!(buf.get(x, y), Cell { ch: ' ', style: plain() });
            }
        }
    }
}

#[test]
fn rendering_twice_is_byte_identical() {
    let node = ContentNode::Split {
        direction: Direction::Vertical,
        margin: 0,
        constraints: vec![Constraint::Fixed(3), Constraint::Min(0)],
        children: vec![
            paragraph_block("A", "top {mod=bold pane}", true),
            paragraph_block("B", "bottom pane with more text to wrap", true),
        ],
    };
    let mut first = Buffer::new(14, 8);
    render(&node, region(0, 0, 14, 8), &mut first);
    let mut second = Buffer::new(14, 8);
    render(&node, region(0, 0, 14, 8), &mut second);
    assert!(buffers_equal(&first, &second));
}

fn gauge_block(percent: u16) -> ContentNode {
    ContentNode::Block {
        title: chars("AWS"),
        title_style: Style { fg: Color::Yellow, bg: Color::Reset, bold: true },
        bordered: false,
        kind: WidgetKind::Gauge { label: chars("85 / 100"), percent },
    }
}

#[test]
fn gauge_overflow_clamps_to_one_hundred() {
    let mut over = Buffer::new(12, 3);
    render(&gauge_block(150), region(0, 0, 12, 3), &mut over);
    let mut full = Buffer::new(12, 3);
    render(&gauge_block(100), region(0, 0, 12, 3), &mut full);
    assert!(buffers_equal(&over, &full));
}

#[test]
fn gauge_fills_proportionally_and_centers_label() {
    let node = ContentNode::Block {
        title: chars(""),
        title_style: plain(),
        bordered: false,
        kind: WidgetKind::Gauge { label: chars("50"), percent: 50 },
    };
    let mut buf = Buffer::new(10, 1);
    render(&node, region(0, 0, 10, 1), &mut buf);
    let on = Style { fg: Color::Black, bg: Color::Magenta, bold: false };
    let off = Style { fg: Color::Magenta, bg: Color::Black, bold: false };
    for x in 0..10u16 {
        let cell = buf.get(x, 0);
        assert_eq!(cell.style, if x < 5 { on } else { off });
        let expected = match x {
            4 => '5',
            5 => '0',
            _ => ' ',
        };
        assert_eq!(cell.ch, expected);
    }
}

#[test]
fn list_highlights_selected_row_and_truncates() {
    let node = ContentNode::Block {
        title: chars(""),
        title_style: plain(),
        bordered: false,
        kind: WidgetKind::List {
            items: vec![chars("Python"), chars(""), chars("Rust")],
            selected: Some(2),
        },
    };
    let mut buf = Buffer::new(4, 2);
    render(&node, region(0, 0, 4, 2), &mut buf);
    assert_eq!(row_text(&buf, 0), "Pyth");
    assert_eq!(row_text(&buf, 1), "    ");
    let mut tall = Buffer::new(6, 4);
    render(&node, region(0, 0, 6, 4), &mut tall);
    assert_eq!(row_text(&tall, 0), "Python");
    assert_eq!(row_text(&tall, 2), "Rust  ");
    let hl = Style { fg: Color::Yellow, bg: Color::Reset, bold: false };
    assert_eq!(tall.get(0, 2).style, hl);
    assert_eq!(tall.get(0, 0).style, plain());
    assert_eq!(row_text(&tall, 3), "      ");
}

#[test]
fn split_children_render_into_their_own_regions() {
    let node = ContentNode::Split {
        direction: Direction::Horizontal,
        margin: 0,
        constraints: vec![Constraint::Fixed(4), Constraint::Min(0)],
        children: vec![
            ContentNode::Block {
                title: chars(""),
                title_style: plain(),
                bordered: false,
                kind: WidgetKind::Paragraph { text: chars("LL"), wrap: false },
            },
            ContentNode::Block {
                title: chars(""),
                title_style: plain(),
                bordered: false,
                kind: WidgetKind::Paragraph { text: chars("RR"), wrap: false },
            },
        ],
    };
    let mut buf = Buffer::new(10, 2);
    render(&node, region(0, 0, 10, 2), &mut buf);
    assert_eq!(row_text(&buf, 0), "LL  RR    ");
    assert_eq!(row_text(&buf, 1), "          ");
}

#[test]
fn split_margin_ring_is_left_untouched() {
    let node = ContentNode::Split {
        direction: Direction::Vertical,
        margin: 1,
        constraints: vec![Constraint::Min(0)],
        children: vec![ContentNode::Block {
            title: chars(""),
            title_style: plain(),
            bordered: false,
            kind: WidgetKind::Paragraph { text: chars("XXXXXXXX"), wrap: true },
        }],
    };
    let mut buf = Buffer::new(5, 4);
    render(&node, region(0, 0, 5, 4), &mut buf);
    assert_eq!(row_text(&buf, 0), "     ");
    assert_eq!(row_text(&buf, 1), " XXX ");
    assert_eq!(row_text(&buf, 2), " XXX ");
    assert_eq!(row_text(&buf, 3), "     ");
}

#[test]
fn event_scenario_one_previous_then_quit_no_render_after() {
    let mut app = App {
        size: TermSize { width: 12, height: 6 },
        tabs: MyTabs {
            titles: vec!["a", "b", "c", "d", "e", "f"],
            selection: 0,
        },
        state: LoopState::Running,
    };
    let mut q = EventQueue::new();
    q.push(Event::Tick);
    q.push(Event::KeyPress(Key::Left));
    q.push(Event::Tick);
    q.push(Event::KeyPress(Key::Char('q')));

    let node = paragraph_block("T", "body", true);
    let mut buf = Buffer::new(12, 6);
    let mut renders = 0;
    // The application loop: render, then block for the next event.
    while matches!(app.state, LoopState::Running) && q.len() > 0 {
        render(&node, region(0, 0, 12, 6), &mut buf);
        renders += 1;
        let e = q.pop().unwrap();
        app.handle_event(e);
    }
    // Exactly one previous() call happened, the loop terminated on the quit
    // key, and no render followed termination: one render per consumed event.
    assert_eq!(renders, 4);
    assert_eq!(app.tabs.selection, 5);
    assert!(matches!(app.state, LoopState::Terminated));
    assert_eq!(q.len(), 0);
}
