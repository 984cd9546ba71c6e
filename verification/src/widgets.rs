//! Widgets and the renderer: a declarative content tree of nested splits and
//! leaf widgets (paragraph, gauge, list, each inside an optional block
//! frame), painted statelessly into a cell buffer. What every cell shows is
//! a pure function of the node and the region; rendering never writes
//! outside its region.

use vstd::prelude::*;
use crate::buffer::Buffer;
use crate::layout::{Region, Direction, Constraint, split, split_regions, lemma_split_tiles};
use crate::markup::{spans_of, parse_spans};
use crate::style::{Cell, Color, SChar, Style, blank_cell, plain_style};
use crate::wrap::{para_lines, rows_view, para_rows};

verus! {

/// A leaf widget: a paragraph of marked-up text (optionally wrapped), a
/// horizontal progress gauge, or a selectable list.
pub enum WidgetKind {
    Paragraph { text: Vec<char>, wrap: bool },
    Gauge { label: Vec<char>, percent: u16 },
    List { items: Vec<Vec<char>>, selected: Option<usize> },
}

/// The content tree of one tab: nested splits ending in framed leaf widgets.
pub enum ContentNode {
    Split {
        direction: Direction,
        margin: u16,
        constraints: Vec<Constraint>,
        children: Vec<ContentNode>,
    },
    Block { title: Vec<char>, title_style: Style, bordered: bool, kind: WidgetKind },
}

/// Every split owns exactly one constraint per child.
pub open spec fn node_wf(node: ContentNode) -> bool
    decreases node,
{
    match node {
        ContentNode::Split { constraints, children, .. } => {
            &&& children@.len() == constraints@.len()
            &&& forall|i: int| 0 <= i < children@.len() ==> node_wf(#[trigger] children@[i])
        },
        ContentNode::Block { .. } => true,
    }
}

// ---------------------------------------------------------------------------
// Styles the widgets paint with.
// ---------------------------------------------------------------------------

/// The filled part of a gauge bar.
pub open spec fn gauge_on_style() -> Style {
    Style { fg: Color::Black, bg: Color::Magenta, bold: false }
}

/// The unfilled part of a gauge bar.
pub open spec fn gauge_off_style() -> Style {
    Style { fg: Color::Magenta, bg: Color::Black, bold: false }
}

/// The selected row of a list.
pub open spec fn highlight_style() -> Style {
    Style { fg: Color::Yellow, bg: Color::Reset, bold: false }
}

/// A parsed text character as a screen cell.
pub open spec fn cell_of(sc: SChar) -> Cell {
    Cell { ch: sc.ch, style: sc.style }
}

// ---------------------------------------------------------------------------
// What each leaf widget shows at cell (r, c) of a w-by-h content area.
// ---------------------------------------------------------------------------

/// Paragraph: its visual lines, top-aligned, blank beyond them.
pub open spec fn para_cell(text: Seq<char>, wrapb: bool, w: int, r: int, c: int) -> Cell {
    let lines = para_lines(spans_of(text), w, wrapb);
    if 0 <= r < lines.len() && 0 <= c < lines[r].len() {
        cell_of(lines[r][c])
    } else {
        blank_cell()
    }
}

/// A gauge percentage clamped to [0, 100].
pub open spec fn gauge_clamp(p: int) -> int {
    if p > 100 {
        100
    } else {
        p
    }
}

/// How many of `w` cells a gauge fills.
pub open spec fn gauge_filled(p: int, w: int) -> int {
    w * gauge_clamp(p) / 100
}

/// Where the centered gauge label starts.
pub open spec fn gauge_label_start(label_len: int, w: int) -> int {
    if label_len >= w {
        0
    } else {
        (w - label_len) / 2
    }
}

/// Gauge: a bar of filled cells under a centered label on the middle row.
pub open spec fn gauge_cell(label: Seq<char>, percent: int, w: int, h: int, r: int, c: int) -> Cell {
    let filled = gauge_filled(percent, w);
    let ls = gauge_label_start(label.len() as int, w);
    let on_label = r == h / 2 && ls <= c < ls + label.len();
    Cell {
        ch: if on_label {
            label[c - ls]
        } else {
            ' '
        },
        style: if c < filled {
            gauge_on_style()
        } else {
            gauge_off_style()
        },
    }
}

/// The sequence of sequences a vector of list items denotes.
pub open spec fn items_view(vv: Seq<Vec<char>>) -> Seq<Seq<char>> {
    Seq::new(vv.len(), |i: int| vv[i]@)
}

/// List: one item per row, top-aligned, truncated right and below, the
/// selected row highlighted.
pub open spec fn list_cell(items: Seq<Seq<char>>, selected: Option<usize>, r: int, c: int) -> Cell {
    let on_item = 0 <= r < items.len();
    let sel = on_item && (match selected {
        Some(s) => s as int == r,
        None => false,
    });
    Cell {
        ch: if on_item && 0 <= c < items[r].len() {
            items[r][c]
        } else {
            ' '
        },
        style: if sel {
            highlight_style()
        } else {
            plain_style()
        },
    }
}

/// What a leaf widget shows at cell (r, c) of its w-by-h content area.
pub open spec fn kind_cell(kind: WidgetKind, w: int, h: int, r: int, c: int) -> Cell {
    match kind {
        WidgetKind::Paragraph { text, wrap } => para_cell(text@, wrap, w, r, c),
        WidgetKind::Gauge { label, percent } => gauge_cell(label@, percent as int, w, h, r, c),
        WidgetKind::List { items, selected } => list_cell(items_view(items@), selected, r, c),
    }
}

// ---------------------------------------------------------------------------
// The block frame: border, title, and the widget in the content area.
// ---------------------------------------------------------------------------

/// How many title characters fit on a bordered top edge.
pub open spec fn border_title_len(title_len: int, w: int) -> int {
    if title_len <= w - 2 {
        title_len
    } else if w - 2 >= 0 {
        w - 2
    } else {
        0
    }
}

/// What a framed widget shows at cell (r, c) of its w-by-h region: the
/// border box and title when bordered (the title truncated to fit the top
/// edge), a plain title row when only titled, and the widget's own cells in
/// the remaining content area.
pub open spec fn block_cell(
    title: Seq<char>,
    tstyle: Style,
    bordered: bool,
    kind: WidgetKind,
    w: int,
    h: int,
    r: int,
    c: int,
) -> Cell {
    if bordered {
        if r == 0 {
            if c == 0 || c == w - 1 {
                Cell { ch: '+', style: plain_style() }
            } else if 1 <= c < 1 + border_title_len(title.len() as int, w) {
                Cell { ch: title[c - 1], style: tstyle }
            } else {
                Cell { ch: '-', style: plain_style() }
            }
        } else if r == h - 1 {
            if c == 0 || c == w - 1 {
                Cell { ch: '+', style: plain_style() }
            } else {
                Cell { ch: '-', style: plain_style() }
            }
        } else if c == 0 || c == w - 1 {
            Cell { ch: '|', style: plain_style() }
        } else {
            kind_cell(kind, w - 2, h - 2, r - 1, c - 1)
        }
    } else if title.len() > 0 {
        if r == 0 {
            if 0 <= c < title.len() {
                Cell { ch: title[c], style: tstyle }
            } else {
                blank_cell()
            }
        } else {
            kind_cell(kind, w, h - 1, r - 1, c)
        }
    } else {
        kind_cell(kind, w, h, r, c)
    }
}

// ---------------------------------------------------------------------------
// What a whole content tree paints at each cell of its region.
// ---------------------------------------------------------------------------

/// What the first `j` children of a split paint at relative cell (r, c):
/// the cell of the first child whose region holds it, `None` where no child
/// paints (the split's margin ring, or no child at all).
pub open spec fn split_paint_upto(
    children: Seq<ContentNode>,
    rs: Seq<Region>,
    r: int,
    c: int,
    j: int,
) -> Option<Cell>
    decreases children, j,
{
    if j <= 0 {
        None
    } else {
        match split_paint_upto(children, rs, r, c, j - 1) {
            Some(cell) => Some(cell),
            None => {
                if j - 1 < children.len() && j - 1 < rs.len() && rs[j - 1].contains(c, r) {
                    node_paint(
                        children[j - 1],
                        rs[j - 1].width,
                        rs[j - 1].height,
                        r - rs[j - 1].y,
                        c - rs[j - 1].x,
                    )
                } else {
                    None
                }
            },
        }
    }
}

/// What a content tree paints at relative cell (r, c) of a w-by-h region:
/// a block paints every cell of its region; a split paints through whichever
/// child's region holds the cell and leaves its margin ring untouched.
pub open spec fn node_paint(node: ContentNode, w: u16, h: u16, r: int, c: int) -> Option<Cell>
    decreases node, 0int,
{
    match node {
        ContentNode::Block { title, title_style, bordered, kind } => Some(
            block_cell(title@, title_style, bordered, kind, w as int, h as int, r, c),
        ),
        ContentNode::Split { direction, margin, constraints, children } => {
            let rs = split_regions(
                Region { x: 0, y: 0, width: w, height: h },
                direction,
                constraints@,
                margin as int,
            );
            split_paint_upto(children@, rs, r, c, children@.len() as int)
        },
    }
}


// ---------------------------------------------------------------------------
// Executable rendering.
// ---------------------------------------------------------------------------

/// Compute what a leaf widget shows at content cell (r, c); for a paragraph
/// the caller supplies its precomputed visual rows.
#[verifier::loop_isolation(false)]
fn kind_cell_exec(kind: &WidgetKind, rows: &Vec<Vec<SChar>>, w: u16, h: u16, r: u16, c: u16) -> (
    cell: Cell)
    requires
        r < h,
        c < w,
        (*kind) matches WidgetKind::Paragraph { text, wrap } ==> rows_view(rows@) == para_lines(
            spans_of(text@),
            w as int,
            wrap,
        ),
    ensures
        cell == kind_cell(*kind, w as int, h as int, r as int, c as int),
{
    match kind {
        WidgetKind::Paragraph { text, wrap } => {
            if (r as usize) < rows.len() {
                proof {
                    assert(rows_view(rows@)[r as int] == rows@[r as int]@);
                }
                let row = &rows[r as usize];
                if (c as usize) < row.len() {
                    let sc = row[c as usize];
                    Cell { ch: sc.ch, style: sc.style }
                } else {
                    Cell::blank()
                }
            } else {
                Cell::blank()
            }
        },
        WidgetKind::Gauge { label, percent } => {
            let p: u16 = if *percent > 100 {
                100
            } else {
                *percent
            };
            proof {
                vstd::arithmetic::mul::lemma_mul_upper_bound(w as int, 0xffff, p as int, 100);
            }
            let filled: u32 = (w as u32) * (p as u32) / 100;
            let ll = label.len();
            let ls: usize = if ll >= w as usize {
                0
            } else {
                (w as usize - ll) / 2
            };
            let on_label = (r == h / 2) && (c as usize) >= ls && (c as usize) - ls < ll;
            let ch: char = if on_label {
                label[(c as usize) - ls]
            } else {
                ' '
            };
            let style = if (c as u32) < filled {
                Style { fg: Color::Black, bg: Color::Magenta, bold: false }
            } else {
                Style { fg: Color::Magenta, bg: Color::Black, bold: false }
            };
            Cell { ch, style }
        },
        WidgetKind::List { items, selected } => {
            let on_item = (r as usize) < items.len();
            let sel = on_item && (match selected {
                Some(s) => *s == r as usize,
                None => false,
            });
            let ch: char = if on_item {
                proof {
                    assert(items_view(items@)[r as int] == items@[r as int]@);
                }
                let row = &items[r as usize];
                if (c as usize) < row.len() {
                    row[c as usize]
                } else {
                    ' '
                }
            } else {
                ' '
            };
            let style = if sel {
                Style { fg: Color::Yellow, bg: Color::Reset, bold: false }
            } else {
                Style::plain()
            };
            Cell { ch, style }
        },
    }
}

/// Paint a framed leaf widget over its whole region.
#[verifier::loop_isolation(false)]
#[verifier::rlimit(100)]
fn render_block(
    title: &Vec<char>,
    title_style: Style,
    bordered: bool,
    kind: &WidgetKind,
    region: Region,
    buf: &mut Buffer,
)
    requires
        old(buf).wf(),
        region.wf(),
        region.x + region.width <= old(buf).width,
        region.y + region.height <= old(buf).height,
    ensures
        final(buf).wf(),
        final(buf).width == old(buf).width,
        final(buf).height == old(buf).height,
        forall|x: int, y: int|
            0 <= x < old(buf).width && 0 <= y < old(buf).height && !region.contains(x, y)
                ==> final(buf).cell_at(x, y) == old(buf).cell_at(x, y),
        forall|x: int, y: int|
            region.contains(x, y) ==> final(buf).cell_at(x, y) == block_cell(
                title@,
                title_style,
                bordered,
                *kind,
                region.width as int,
                region.height as int,
                y - region.y,
                x - region.x,
            ),
{
    let w = region.width;
    let h = region.height;
    // Content-area geometry.
    let iw: u16 = if bordered {
        if w >= 2 {
            w - 2
        } else {
            0
        }
    } else {
        w
    };
    let ih: u16 = if bordered {
        if h >= 2 {
            h - 2
        } else {
            0
        }
    } else if title.len() > 0 {
        if h >= 1 {
            h - 1
        } else {
            0
        }
    } else {
        h
    };
    // A paragraph's visual rows, computed once for the whole region.
    let rows: Vec<Vec<SChar>> = match kind {
        WidgetKind::Paragraph { text, wrap } => {
            if iw >= 1 {
                let spans = parse_spans(text);
                para_rows(&spans, iw, *wrap)
            } else {
                Vec::new()
            }
        },
        _ => Vec::new(),
    };
    // How many title characters fit on a bordered top edge.
    let tfit: usize = if w >= 2 {
        if title.len() <= (w - 2) as usize {
            title.len()
        } else {
            (w - 2) as usize
        }
    } else {
        0
    };
    let mut y: u16 = 0;
    while y < h
        invariant
            y <= h,
            buf.wf(),
            buf.width == old(buf).width,
            buf.height == old(buf).height,
            forall|x2: int, y2: int|
                0 <= x2 < old(buf).width && 0 <= y2 < old(buf).height && !region.contains(x2, y2)
                    ==> buf.cell_at(x2, y2) == old(buf).cell_at(x2, y2),
            forall|x2: int, y2: int|
                region.contains(x2, y2) && y2 - region.y < y ==> buf.cell_at(x2, y2) == block_cell(
                    title@,
                    title_style,
                    bordered,
                    *kind,
                    w as int,
                    h as int,
                    y2 - region.y,
                    x2 - region.x,
                ),
        decreases h - y,
    {
        let mut x: u16 = 0;
        while x < w
            invariant
                x <= w,
                y < h,
                buf.wf(),
                buf.width == old(buf).width,
                buf.height == old(buf).height,
                forall|x2: int, y2: int|
                    0 <= x2 < old(buf).width && 0 <= y2 < old(buf).height && !region.contains(
                        x2,
                        y2,
                    ) ==> buf.cell_at(x2, y2) == old(buf).cell_at(x2, y2),
                forall|x2: int, y2: int|
                    region.contains(x2, y2) && (y2 - region.y < y || (y2 - region.y == y as int
                        && x2 - region.x < x)) ==> buf.cell_at(x2, y2) == block_cell(
                        title@,
                        title_style,
                        bordered,
                        *kind,
                        w as int,
                        h as int,
                        y2 - region.y,
                        x2 - region.x,
                    ),
            decreases w - x,
        {
            let cell: Cell = if bordered {
                if y == 0 {
                    if x == 0 || x == w - 1 {
                        Cell { ch: '+', style: Style::plain() }
                    } else if x >= 1 && ((x - 1) as usize) < tfit {
                        Cell { ch: title[(x - 1) as usize], style: title_style }
                    } else {
                        Cell { ch: '-', style: Style::plain() }
                    }
                } else if y == h - 1 {
                    if x == 0 || x == w - 1 {
                        Cell { ch: '+', style: Style::plain() }
                    } else {
                        Cell { ch: '-', style: Style::plain() }
                    }
                } else if x == 0 || x == w - 1 {
                    Cell { ch: '|', style: Style::plain() }
                } else {
                    kind_cell_exec(kind, &rows, iw, ih, y - 1, x - 1)
                }
            } else if title.len() > 0 {
                if y == 0 {
                    if (x as usize) < title.len() {
                        Cell { ch: title[x as usize], style: title_style }
                    } else {
                        Cell::blank()
                    }
                } else {
                    kind_cell_exec(kind, &rows, iw, ih, y - 1, x)
                }
            } else {
                kind_cell_exec(kind, &rows, iw, ih, y, x)
            };
            proof {
                assert(cell == block_cell(
                    title@,
                    title_style,
                    bordered,
                    *kind,
                    w as int,
                    h as int,
                    y as int,
                    x as int,
                ));
            }
            buf.set(region.x + x, region.y + y, cell);
            x = x + 1;
        }
        y = y + 1;
    }
}


/// Where no child's region holds the cell, the first `j` children paint
/// nothing.
proof fn lemma_upto_none(children: Seq<ContentNode>, rs: Seq<Region>, r: int, c: int, j: int)
    requires
        forall|t: int| 0 <= t < j ==> !(t < rs.len() && #[trigger] rs[t].contains(c, r)),
    ensures
        split_paint_upto(children, rs, r, c, j) is None,
    decreases j,
{
    if j > 0 {
        lemma_upto_none(children, rs, r, c, j - 1);
    }
}

/// Render a content tree into a region of the buffer: the cells a node
/// paints show exactly what the node denotes there; every other cell of the
/// buffer keeps its old content. Rendering is thereby a pure function of the
/// node, the region and the prior buffer, and never writes outside the
/// region.
#[verifier::loop_isolation(false)]
#[verifier::rlimit(100)]
pub fn render(node: &ContentNode, region: Region, buf: &mut Buffer)
    requires
        old(buf).wf(),
        node_wf(*node),
        region.wf(),
        region.x + region.width <= old(buf).width,
        region.y + region.height <= old(buf).height,
    ensures
        final(buf).wf(),
        final(buf).width == old(buf).width,
        final(buf).height == old(buf).height,
        forall|x: int, y: int|
            0 <= x < old(buf).width && 0 <= y < old(buf).height && !region.contains(x, y)
                ==> final(buf).cell_at(x, y) == old(buf).cell_at(x, y),
        forall|x: int, y: int|
            region.contains(x, y) ==> final(buf).cell_at(x, y) == (match node_paint(
                *node,
                region.width,
                region.height,
                y - region.y,
                x - region.x,
            ) {
                Some(cell) => cell,
                None => old(buf).cell_at(x, y),
            }),
        renders_to(*node, region, *old(buf), *final(buf)),
    decreases *node,
{
    match node {
        ContentNode::Block { title, title_style, bordered, kind } => {
            render_block(title, *title_style, *bordered, kind, region, buf);
        },
        ContentNode::Split { direction, margin, constraints, children } => {
            let rel_parent = Region { x: 0, y: 0, width: region.width, height: region.height };
            let rel = split(rel_parent, *direction, constraints, *margin);
            proof {
                crate::layout::lemma_split_children_bounds(
                    rel_parent,
                    *direction,
                    constraints@,
                    *margin as int,
                );
            }
            let ghost rels = rel@;
            let mut j: usize = 0;
            while j < rel.len()
                invariant
                    j <= rels.len(),
                    buf.wf(),
                    buf.width == old(buf).width,
                    buf.height == old(buf).height,
                    forall|x: int, y: int|
                        0 <= x < old(buf).width && 0 <= y < old(buf).height && !region.contains(
                            x,
                            y,
                        ) ==> buf.cell_at(x, y) == old(buf).cell_at(x, y),
                    forall|x: int, y: int|
                        region.contains(x, y) ==> buf.cell_at(x, y) == (match split_paint_upto(
                            children@,
                            rels,
                            y - region.y,
                            x - region.x,
                            j as int,
                        ) {
                            Some(cell) => cell,
                            None => old(buf).cell_at(x, y),
                        }),
                decreases rel.len() - j,
            {
                let r = rel[j];
                let child_abs = Region {
                    x: region.x + r.x,
                    y: region.y + r.y,
                    width: r.width,
                    height: r.height,
                };
                proof {
                    assert(split_regions(rel_parent, *direction, constraints@, *margin as int)[
                        j as int] == rels[j as int]);
                }
                let ghost buf_pre = *buf;
                render(&children[j], child_abs, buf);
                proof {
                    let jint = j as int;
                    assert forall|x: int, y: int|
                        0 <= x < old(buf).width && 0 <= y < old(buf).height && !region.contains(
                            x,
                            y,
                        ) implies buf.cell_at(x, y) == old(buf).cell_at(x, y) by {
                        assert(!child_abs.contains(x, y));
                    }
                    assert forall|x: int, y: int| region.contains(x, y) implies buf.cell_at(x, y)
                        == (match split_paint_upto(
                        children@,
                        rels,
                        y - region.y,
                        x - region.x,
                        jint + 1,
                    ) {
                        Some(cell) => cell,
                        None => old(buf).cell_at(x, y),
                    }) by {
                        let rr = y - region.y;
                        let rc = x - region.x;
                        if rels[jint].contains(rc, rr) {
                            assert(child_abs.contains(x, y));
                            lemma_split_tiles(
                                rel_parent,
                                *direction,
                                constraints@,
                                *margin as int,
                                rc,
                                rr,
                            );
                            assert forall|t: int|
                                0 <= t < jint implies !(t < rels.len()
                                && #[trigger] rels[t].contains(rc, rr)) by {}
                            lemma_upto_none(children@, rels, rr, rc, jint);
                            assert(buf_pre.cell_at(x, y) == old(buf).cell_at(x, y));
                            assert(y - child_abs.y == rr - rels[jint].y);
                            assert(x - child_abs.x == rc - rels[jint].x);
                        } else {
                            assert(!child_abs.contains(x, y));
                            assert(buf.cell_at(x, y) == buf_pre.cell_at(x, y));
                        }
                    }
                }
                j = j + 1;
            }
            proof {
                if rel@.len() < children@.len() {
                    assert(rels.len() == 0);
                    assert forall|x: int, y: int| region.contains(x, y) implies buf.cell_at(x, y)
                        == (match split_paint_upto(
                        children@,
                        rels,
                        y - region.y,
                        x - region.x,
                        children@.len() as int,
                    ) {
                        Some(cell) => cell,
                        None => old(buf).cell_at(x, y),
                    }) by {
                        let rr = y - region.y;
                        let rc = x - region.x;
                        assert forall|t: int|
                            0 <= t < children@.len() implies !(t < rels.len()
                            && #[trigger] rels[t].contains(rc, rr)) by {}
                        lemma_upto_none(children@, rels, rr, rc, children@.len() as int);
                    }
                }
            }
        },
    }
}


// ---------------------------------------------------------------------------
// Rendering laws.
// ---------------------------------------------------------------------------

/// The whole relation `render` establishes between the buffer before and
/// after: dimensions kept, cells outside the region untouched, cells inside
/// showing exactly what the node paints there (or their old content where
/// the node paints nothing).
pub open spec fn renders_to(node: ContentNode, region: Region, b0: Buffer, b1: Buffer) -> bool {
    &&& b1.wf()
    &&& b1.width == b0.width
    &&& b1.height == b0.height
    &&& forall|x: int, y: int|
        0 <= x < b0.width && 0 <= y < b0.height && !region.contains(x, y) ==> b1.cell_at(x, y)
            == b0.cell_at(x, y)
    &&& forall|x: int, y: int|
        region.contains(x, y) ==> b1.cell_at(x, y) == (match node_paint(
            node,
            region.width,
            region.height,
            y - region.y,
            x - region.x,
        ) {
            Some(cell) => cell,
            None => b0.cell_at(x, y),
        })
}

/// Idempotent render: what rendering a node leaves in its region is a pure
/// function of the node, the region's size, and what the region held before.
/// Two renders of one node into equal-sized regions whose prior contents
/// agree leave cell-identical region contents — in particular, repeating a
/// render of the same node into the same-sized region reproduces the same
/// cells exactly.
pub proof fn lemma_render_idempotent(
    node: ContentNode,
    r1: Region,
    r2: Region,
    a0: Buffer,
    a1: Buffer,
    b0: Buffer,
    b1: Buffer,
)
    requires
        renders_to(node, r1, a0, a1),
        renders_to(node, r2, b0, b1),
        r1.width == r2.width,
        r1.height == r2.height,
        forall|dx: int, dy: int|
            0 <= dx < r1.width && 0 <= dy < r1.height ==> #[trigger] a0.cell_at(r1.x + dx, r1.y + dy)
                == b0.cell_at(r2.x + dx, r2.y + dy),
    ensures
        forall|dx: int, dy: int|
            0 <= dx < r1.width && 0 <= dy < r1.height ==> #[trigger] a1.cell_at(r1.x + dx, r1.y + dy)
                == b1.cell_at(r2.x + dx, r2.y + dy),
{
    assert forall|dx: int, dy: int|
        0 <= dx < r1.width && 0 <= dy < r1.height implies #[trigger] a1.cell_at(r1.x + dx, r1.y + dy)
        == b1.cell_at(r2.x + dx, r2.y + dy) by {
        assert(r1.contains(r1.x + dx, r1.y + dy));
        assert(r2.contains(r2.x + dx, r2.y + dy));
        assert((r1.y + dy) - r1.y == dy && (r1.x + dx) - r1.x == dx);
        assert((r2.y + dy) - r2.y == dy && (r2.x + dx) - r2.x == dx);
    }
}

/// Gauge clamp: any percentage at or above one hundred renders exactly as
/// one hundred does, cell for cell (values below zero have no
/// representation, so the lower clamp is vacuous).
pub proof fn lemma_gauge_clamp(
    title: Seq<char>,
    tstyle: Style,
    bordered: bool,
    label: Vec<char>,
    p: u16,
    w: int,
    h: int,
    r: int,
    c: int,
)
    requires
        p >= 100,
    ensures
        block_cell(
            title,
            tstyle,
            bordered,
            WidgetKind::Gauge { label, percent: p },
            w,
            h,
            r,
            c,
        ) == block_cell(
            title,
            tstyle,
            bordered,
            WidgetKind::Gauge { label, percent: 100u16 },
            w,
            h,
            r,
            c,
        ),
{
    assert(gauge_clamp(p as int) == gauge_clamp(100));
}

} // verus!
