use termdash::layout::{split, Constraint, Direction, Region};

fn region(x: u16, y: u16, width: u16, height: u16) -> Region {
    Region { x, y, width, height }
}

#[test]
fn fixed_then_min_splits_vertically() {
    let cs = vec![Constraint::Fixed(3), Constraint::Min(0)];
    let out = split(region(0, 0, 10, 10), Direction::Vertical, &cs, 0);
    assert_eq!(out.len(), 2);
    assert_eq!(out[0], region(0, 0, 10, 3));
    assert_eq!(out[1], region(0, 3, 10, 7));
}

#[test]
fn percent_rounding_goes_to_last_child() {
    let cs = vec![
        Constraint::Percent(10),
        Constraint::Percent(80),
        Constraint::Percent(10),
    ];
    let out = split(region(0, 0, 40, 25), Direction::Vertical, &cs, 0);
    assert_eq!(out.len(), 3);
    // 10% and 80% of 25 truncate to 2 and 20; the last child absorbs the
    // rounding error so the children tile all 25 rows.
    assert_eq!(out[0], region(0, 0, 40, 2));
    assert_eq!(out[1], region(0, 2, 40, 20));
    assert_eq!(out[2], region(0, 22, 40, 3));
    let total: u16 = out.iter().map(|r| r.height).sum();
    assert_eq!(total, 25);
}

#[test]
fn horizontal_split_keeps_perpendicular_extent() {
    let cs = vec![Constraint::Percent(35), Constraint::Percent(65)];
    let out = split(region(2, 5, 20, 9), Direction::Horizontal, &cs, 0);
    assert_eq!(out.len(), 2);
    assert_eq!(out[0], region(2, 5, 7, 9));
    assert_eq!(out[1], region(9, 5, 13, 9));
}

#[test]
fn margin_shrinks_all_four_sides() {
    let cs = vec![Constraint::Min(0)];
    let out = split(region(0, 0, 10, 10), Direction::Vertical, &cs, 1);
    assert_eq!(out.len(), 1);
    assert_eq!(out[0], region(1, 1, 8, 8));
}

#[test]
fn oversized_margin_clamps_to_zero_size() {
    let cs = vec![Constraint::Min(0)];
    let out = split(region(0, 0, 10, 4), Direction::Vertical, &cs, 7);
    // Margin exceeds half the extent: the usable region is empty, so the
    // split yields no regions rather than panicking.
    assert_eq!(out.len(), 0);
}

#[test]
fn empty_constraints_yield_no_regions() {
    let cs: Vec<Constraint> = Vec::new();
    let out = split(region(0, 0, 10, 10), Direction::Vertical, &cs, 0);
    assert_eq!(out.len(), 0);
}

#[test]
fn zero_extent_yields_no_regions() {
    let cs = vec![Constraint::Fixed(2)];
    let out = split(region(3, 3, 12, 0), Direction::Vertical, &cs, 0);
    assert_eq!(out.len(), 0);
}

#[test]
fn min_values_are_honored_when_space_allows() {
    let cs = vec![Constraint::Fixed(2), Constraint::Min(3), Constraint::Min(1)];
    let out = split(region(0, 0, 5, 12), Direction::Vertical, &cs, 0);
    // Leftover is 10; the minimums 3 and 1 are granted, and the surplus 6 is
    // divided evenly, so the two Min children get 6 and 4.
    assert_eq!(out[0].height, 2);
    assert_eq!(out[1].height, 6);
    assert_eq!(out[2].height, 4);
    assert_eq!(out[1].y, 2);
    assert_eq!(out[2].y, 8);
}

#[test]
fn even_min_division_gives_remainder_to_earlier() {
    let cs = vec![Constraint::Min(0), Constraint::Min(0), Constraint::Min(0)];
    let out = split(region(0, 0, 1, 11), Direction::Vertical, &cs, 0);
    // 11 cells in 3 even shares: 4, 4, 3 — earlier children take the
    // integer-division remainder.
    assert_eq!(out[0].height, 4);
    assert_eq!(out[1].height, 4);
    assert_eq!(out[2].height, 3);
}

#[test]
fn overconstrained_fixed_requests_clamp_and_still_tile() {
    let cs = vec![Constraint::Fixed(8), Constraint::Fixed(8)];
    let out = split(region(0, 0, 3, 10), Direction::Vertical, &cs, 0);
    // Only 10 rows exist: the first fixed child takes its 8, the second is
    // clamped to the remaining 2 (and, being last, absorbs the leftover 0).
    assert_eq!(out[0].height, 8);
    assert_eq!(out[1].height, 2);
    let total: u16 = out.iter().map(|r| r.height).sum();
    assert_eq!(total, 10);
}

#[test]
fn nested_split_regions_tile_without_overlap() {
    let outer = vec![Constraint::Fixed(3), Constraint::Min(0)];
    let rows = split(region(0, 0, 30, 20), Direction::Vertical, &outer, 0);
    let inner = vec![
        Constraint::Percent(10),
        Constraint::Percent(80),
        Constraint::Percent(10),
    ];
    let cols = split(rows[1], Direction::Horizontal, &inner, 0);
    // Every cell of the bottom row belongs to exactly one column.
    for x in 0..30u16 {
        let mut owners = 0;
        for r in cols.iter() {
            if x >= r.x && x < r.x + r.width {
                owners += 1;
            }
        }
        assert_eq!(owners, 1);
    }
}

#[test]
fn mixed_constraints_with_margin_tile_exactly() {
    let cs = vec![
        Constraint::Fixed(4),
        Constraint::Percent(30),
        Constraint::Min(2),
        Constraint::Percent(10),
        Constraint::Min(0),
    ];
    for extent in [0u16, 1, 7, 23, 100, 500] {
        for margin in [0u16, 1, 3] {
            let parent = region(5, 2, 37, extent);
            let out = split(parent, Direction::Vertical, &cs, margin);
            // Every cell of the post-margin region is owned by exactly one
            // child; no child sticks out of it.
            let usable_top = 2 + margin.min(extent / 2);
            let usable_h = extent.saturating_sub(2 * margin);
            for cy in 0..(2 + extent + 3) {
                let inside = cy >= usable_top && cy < usable_top + usable_h;
                let mut owners = 0;
                for r in out.iter() {
                    assert!(r.y >= usable_top);
                    assert!(r.y + r.height <= usable_top + usable_h);
                    if cy >= r.y && cy < r.y + r.height {
                        owners += 1;
                    }
                }
                if out.is_empty() {
                    assert_eq!(owners, 0);
                } else {
                    assert_eq!(owners, if inside { 1 } else { 0 });
                }
            }
        }
    }
}
