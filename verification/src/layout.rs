//! Layout engine: splits a rectangular region into an ordered sequence of
//! child regions from declarative size constraints, with an optional
//! symmetric inner margin. The children always tile the post-margin region
//! exactly: no gaps, no overlaps.

use vstd::prelude::*;
use vstd::math::{min, max};

verus! {

/// A rectangular sub-area of the terminal screen, in character cells. A zero
/// width or height is legal and renders nothing.
#[derive(Clone, Copy, PartialEq, Eq, Structural, Debug)]
pub struct Region {
    pub x: u16,
    pub y: u16,
    pub width: u16,
    pub height: u16,
}

/// Which way a split stacks its children.
#[derive(Clone, Copy, PartialEq, Eq, Structural, Debug)]
pub enum Direction {
    Horizontal,
    Vertical,
}

/// How much of the parent's extent one child receives: a fixed number of
/// cells, a percentage of the post-margin extent (truncated), or a minimum
/// that absorbs the leftover space.
#[derive(Clone, Copy, PartialEq, Eq, Structural, Debug)]
pub enum Constraint {
    Fixed(u16),
    Percent(u16),
    Min(u16),
}

impl Region {
    /// The region stays within coordinate range: its far edges fit in `u16`.
    pub open spec fn wf(self) -> bool {
        self.x + self.width <= u16::MAX && self.y + self.height <= u16::MAX
    }

    /// Whether the cell at absolute coordinates `(cx, cy)` lies inside.
    pub open spec fn contains(self, cx: int, cy: int) -> bool {
        self.x <= cx < self.x + self.width && self.y <= cy < self.y + self.height
    }
}

// ---------------------------------------------------------------------------
// The usable (post-margin) region: the parent shrunk symmetrically on all
// four sides, clamping to zero size when the margin exceeds half the extent.
// ---------------------------------------------------------------------------

pub open spec fn usable_x(r: Region, m: int) -> int {
    r.x + min(m, r.width as int / 2)
}

pub open spec fn usable_y(r: Region, m: int) -> int {
    r.y + min(m, r.height as int / 2)
}

pub open spec fn usable_w(r: Region, m: int) -> int {
    max(r.width - 2 * m, 0)
}

pub open spec fn usable_h(r: Region, m: int) -> int {
    max(r.height - 2 * m, 0)
}

/// The usable extent along the split direction.
pub open spec fn extent_of(r: Region, dir: Direction, m: int) -> int {
    match dir {
        Direction::Horizontal => usable_w(r, m),
        Direction::Vertical => usable_h(r, m),
    }
}

// ---------------------------------------------------------------------------
// Size resolution. Fixed and percent constraints ask for a number of cells
// (percentages resolve against the post-margin extent, truncating) and are
// granted left to right, each clamped to what is still available. The
// leftover is then absorbed by the `Min` constraints: each gets at least its
// stated minimum when the leftover allows, and the surplus is divided evenly
// with earlier `Min` constraints receiving the integer-division remainder.
// With no `Min` constraint the whole leftover goes to the last child.
// ---------------------------------------------------------------------------

/// How many cells a fixed or percent constraint asks for (`Min` asks for
/// nothing in this pass).
pub open spec fn want_at(c: Constraint, extent: int) -> int {
    match c {
        Constraint::Fixed(v) => v as int,
        Constraint::Percent(p) => extent * (p as int) / 100,
        Constraint::Min(_) => 0,
    }
}

/// Cells still unclaimed after the first `i` constraints took their
/// fixed/percent share.
pub open spec fn avail_at(cs: Seq<Constraint>, extent: int, i: int) -> int
    decreases i,
{
    if i <= 0 {
        extent
    } else {
        let a = avail_at(cs, extent, i - 1);
        a - min(want_at(cs[i - 1], extent), a)
    }
}

/// The fixed/percent share granted to constraint `i`.
pub open spec fn fp_at(cs: Seq<Constraint>, extent: int, i: int) -> int {
    min(want_at(cs[i], extent), avail_at(cs, extent, i))
}

/// How many `Min` constraints precede index `i`.
pub open spec fn mins_before(cs: Seq<Constraint>, i: int) -> int
    decreases i,
{
    if i <= 0 {
        0
    } else {
        mins_before(cs, i - 1) + (if cs[i - 1] is Min {
            1int
        } else {
            0int
        })
    }
}

/// The summed minimum values of the `Min` constraints before index `i`.
pub open spec fn minsum_before(cs: Seq<Constraint>, i: int) -> int
    decreases i,
{
    if i <= 0 {
        0
    } else {
        minsum_before(cs, i - 1) + (match cs[i - 1] {
            Constraint::Min(v) => v as int,
            _ => 0int,
        })
    }
}

/// Of `m` cells divided into `k` even shares (earlier shares take the
/// remainder), how many the first `j` shares receive in total.
pub open spec fn mdist(m: int, k: int, j: int) -> int {
    j * (m / k) + min(j, m % k)
}

/// The extent finally granted to constraint `i`.
pub open spec fn size_at(cs: Seq<Constraint>, extent: int, i: int) -> int {
    let n = cs.len() as int;
    let l = avail_at(cs, extent, n);
    let k = mins_before(cs, n);
    let s = minsum_before(cs, n);
    match cs[i] {
        Constraint::Min(v) => {
            let j = mins_before(cs, i);
            if s <= l {
                v + mdist(l - s, k, j + 1) - mdist(l - s, k, j)
            } else {
                mdist(l, k, j + 1) - mdist(l, k, j)
            }
        },
        _ => {
            if k == 0 && i == n - 1 {
                fp_at(cs, extent, i) + l
            } else {
                fp_at(cs, extent, i)
            }
        },
    }
}

/// The summed extents of the first `i` children: child `i`'s offset from the
/// usable region's origin along the split direction.
pub open spec fn ssum(cs: Seq<Constraint>, extent: int, i: int) -> int
    decreases i,
{
    if i <= 0 {
        0
    } else {
        ssum(cs, extent, i - 1) + size_at(cs, extent, i - 1)
    }
}

/// Child `i` of the split: it spans `size_at(i)` cells along the split
/// direction, starting after its predecessors, and inherits the usable
/// region's full perpendicular extent.
pub open spec fn child_region(
    region: Region,
    dir: Direction,
    cs: Seq<Constraint>,
    m: int,
    i: int,
) -> Region {
    let e = extent_of(region, dir, m);
    match dir {
        Direction::Vertical => Region {
            x: usable_x(region, m) as u16,
            y: (usable_y(region, m) + ssum(cs, e, i)) as u16,
            width: usable_w(region, m) as u16,
            height: size_at(cs, e, i) as u16,
        },
        Direction::Horizontal => Region {
            x: (usable_x(region, m) + ssum(cs, e, i)) as u16,
            y: usable_y(region, m) as u16,
            width: size_at(cs, e, i) as u16,
            height: usable_h(region, m) as u16,
        },
    }
}

/// What `split` returns: one region per constraint, or no regions at all for
/// an empty constraint list or a zero usable extent along the direction.
pub open spec fn split_regions(region: Region, dir: Direction, cs: Seq<Constraint>, m: int) -> Seq<
    Region,
> {
    if cs.len() == 0 || extent_of(region, dir, m) <= 0 {
        Seq::empty()
    } else {
        Seq::new(cs.len(), |i: int| child_region(region, dir, cs, m, i))
    }
}

// ---------------------------------------------------------------------------
// Arithmetic facts about the resolution.
// ---------------------------------------------------------------------------

/// Every fixed/percent request is nonnegative.
pub proof fn lemma_want_nonneg(c: Constraint, extent: int)
    requires
        extent >= 0,
    ensures
        want_at(c, extent) >= 0,
{
    match c {
        Constraint::Percent(p) => {
            vstd::arithmetic::mul::lemma_mul_nonnegative(extent, p as int);
            vstd::arithmetic::div_mod::lemma_div_pos_is_pos(extent * (p as int), 100);
        },
        _ => {},
    }
}

/// What remains available never goes negative and never grows.
pub proof fn lemma_avail_bounds(cs: Seq<Constraint>, extent: int, i: int)
    requires
        extent >= 0,
        0 <= i,
    ensures
        0 <= avail_at(cs, extent, i) <= extent,
    decreases i,
{
    if i > 0 {
        lemma_avail_bounds(cs, extent, i - 1);
        lemma_want_nonneg(cs[i - 1], extent);
    }
}

/// Every granted size is nonnegative.
pub proof fn lemma_size_nonneg(cs: Seq<Constraint>, extent: int, i: int)
    requires
        extent >= 0,
        0 <= i < cs.len(),
    ensures
        size_at(cs, extent, i) >= 0,
{
    let n = cs.len() as int;
    let l = avail_at(cs, extent, n);
    let k = mins_before(cs, n);
    lemma_avail_bounds(cs, extent, n);
    lemma_avail_bounds(cs, extent, i);
    lemma_want_nonneg(cs[i], extent);
    match cs[i] {
        Constraint::Min(v) => {
            let j = mins_before(cs, i);
            lemma_mins_before_le(cs, i, n);
            assert(k >= j + 1 >= 1) by {
                lemma_mins_before_ge_one(cs, i, n);
            }
            let mm = if minsum_before(cs, n) <= l {
                l - minsum_before(cs, n)
            } else {
                l
            };
            lemma_mdist_step(mm, k, j);
        },
        _ => {},
    }
}

/// `mins_before` counts upward from zero.
pub proof fn lemma_mins_before_nonneg(cs: Seq<Constraint>, i: int)
    ensures
        mins_before(cs, i) >= 0,
    decreases i,
{
    if i > 0 {
        lemma_mins_before_nonneg(cs, i - 1);
    }
}

/// `mins_before` is monotone in the index.
pub proof fn lemma_mins_before_le(cs: Seq<Constraint>, i: int, j: int)
    requires
        0 <= i <= j,
    ensures
        mins_before(cs, i) <= mins_before(cs, j),
        mins_before(cs, i) >= 0,
    decreases j - i,
{
    lemma_mins_before_nonneg(cs, i);
    if i < j {
        lemma_mins_before_le(cs, i, j - 1);
    }
}

/// A `Min` at index `i` counts toward `mins_before` past `i`.
pub proof fn lemma_mins_before_ge_one(cs: Seq<Constraint>, i: int, j: int)
    requires
        0 <= i < j,
        cs[i] is Min,
    ensures
        mins_before(cs, j) >= mins_before(cs, i) + 1,
    decreases j,
{
    if j == i + 1 {
    } else {
        lemma_mins_before_ge_one(cs, i, j - 1);
        lemma_mins_before_le(cs, j - 1, j);
    }
}

/// One even share out of `m` cells is `m/k` plus one remainder cell for the
/// first `m%k` shares; in particular every share is nonnegative and the `k`
/// shares together hand out exactly `m`.
pub proof fn lemma_mdist_step(m: int, k: int, j: int)
    requires
        m >= 0,
        k >= 1,
        0 <= j,
    ensures
        mdist(m, k, j + 1) - mdist(m, k, j) == m / k + (if j < m % k {
            1int
        } else {
            0int
        }),
        mdist(m, k, j + 1) - mdist(m, k, j) >= 0,
{
    vstd::arithmetic::div_mod::lemma_div_pos_is_pos(m, k);
    vstd::arithmetic::div_mod::lemma_mod_bound(m, k);
    assert((j + 1) * (m / k) == j * (m / k) + m / k) by {
        vstd::arithmetic::mul::lemma_mul_is_distributive_add_other_way(m / k, j, 1);
    }
}

/// All `k` even shares of `m` together hand out exactly `m`.
pub proof fn lemma_mdist_total(m: int, k: int)
    requires
        m >= 0,
        k >= 1,
    ensures
        mdist(m, k, k) == m,
{
    vstd::arithmetic::div_mod::lemma_fundamental_div_mod(m, k);
    vstd::arithmetic::div_mod::lemma_mod_bound(m, k);
    assert(k * (m / k) == (m / k) * k) by {
        vstd::arithmetic::mul::lemma_mul_is_commutative(k, m / k);
    }
}

/// The cells the `Min` constraints before index `i` have been granted.
spec fn mpart(cs: Seq<Constraint>, extent: int, i: int) -> int {
    let n = cs.len() as int;
    let l = avail_at(cs, extent, n);
    let k = mins_before(cs, n);
    let s = minsum_before(cs, n);
    if k == 0 {
        0
    } else if s <= l {
        minsum_before(cs, i) + mdist(l - s, k, mins_before(cs, i))
    } else {
        mdist(l, k, mins_before(cs, i))
    }
}

/// Running decomposition of the summed sizes: fixed/percent cells granted so
/// far, plus min shares granted so far, plus (with no `Min` constraint and
/// only at the very end) the leftover given to the last child.
proof fn lemma_ssum_decompose(cs: Seq<Constraint>, extent: int, i: int)
    requires
        extent >= 0,
        cs.len() >= 1,
        0 <= i <= cs.len(),
    ensures
        ssum(cs, extent, i) == (extent - avail_at(cs, extent, i)) + mpart(cs, extent, i) + (
        if mins_before(cs, cs.len() as int) == 0 && i == cs.len() {
            avail_at(cs, extent, cs.len() as int)
        } else {
            0int
        }),
    decreases i,
{
    let n = cs.len() as int;
    let l = avail_at(cs, extent, n);
    let k = mins_before(cs, n);
    let s = minsum_before(cs, n);
    lemma_avail_bounds(cs, extent, n);
    lemma_mins_before_nonneg(cs, n);
    if i == 0 {
        if k >= 1 {
            let m = if s <= l {
                l - s
            } else {
                l
            };
            vstd::arithmetic::div_mod::lemma_mod_bound(m, k);
            assert(mdist(m, k, 0) == 0);
        }
    } else {
        lemma_ssum_decompose(cs, extent, i - 1);
        lemma_avail_bounds(cs, extent, i - 1);
        lemma_want_nonneg(cs[i - 1], extent);
        match cs[i - 1] {
            Constraint::Min(_) => {
                lemma_mins_before_ge_one(cs, i - 1, n);
                lemma_mins_before_nonneg(cs, i - 1);
                assert(avail_at(cs, extent, i) == avail_at(cs, extent, i - 1));
            },
            _ => {
                assert(mins_before(cs, i) == mins_before(cs, i - 1));
                assert(minsum_before(cs, i) == minsum_before(cs, i - 1));
            },
        }
    }
}

/// The granted sizes of all children sum to exactly the usable extent.
pub proof fn lemma_ssum_total(cs: Seq<Constraint>, extent: int)
    requires
        extent >= 0,
        cs.len() >= 1,
    ensures
        ssum(cs, extent, cs.len() as int) == extent,
{
    let n = cs.len() as int;
    let l = avail_at(cs, extent, n);
    let k = mins_before(cs, n);
    let s = minsum_before(cs, n);
    lemma_ssum_decompose(cs, extent, n);
    lemma_avail_bounds(cs, extent, n);
    lemma_mins_before_nonneg(cs, n);
    if k >= 1 {
        if s <= l {
            lemma_mdist_total(l - s, k);
        } else {
            lemma_mdist_total(l, k);
        }
    }
}

/// Offsets grow monotonically with the child index.
pub proof fn lemma_ssum_mono(cs: Seq<Constraint>, extent: int, i: int, j: int)
    requires
        extent >= 0,
        0 <= i <= j <= cs.len(),
    ensures
        ssum(cs, extent, i) <= ssum(cs, extent, j),
    decreases j - i,
{
    if i < j {
        lemma_ssum_mono(cs, extent, i, j - 1);
        lemma_size_nonneg(cs, extent, j - 1);
    }
}

/// Every child's offset and far edge stay within the usable extent.
pub proof fn lemma_ssum_bounds(cs: Seq<Constraint>, extent: int, i: int)
    requires
        extent >= 0,
        cs.len() >= 1,
        0 <= i <= cs.len(),
    ensures
        0 <= ssum(cs, extent, i) <= extent,
        i < cs.len() ==> ssum(cs, extent, i) + size_at(cs, extent, i) <= extent,
{
    lemma_ssum_mono(cs, extent, 0, i);
    lemma_ssum_mono(cs, extent, i, cs.len() as int);
    lemma_ssum_total(cs, extent);
    if i < cs.len() {
        lemma_ssum_mono(cs, extent, i + 1, cs.len() as int);
        assert(ssum(cs, extent, i + 1) == ssum(cs, extent, i) + size_at(cs, extent, i));
    }
}

/// Split `region`, shrunk by `margin` on all four sides, into one child
/// region per constraint along `direction`. Children tile the post-margin
/// region exactly; an empty constraint list or a zero usable extent along
/// the direction yields no regions.
#[verifier::loop_isolation(false)]
#[verifier::rlimit(60)]
pub fn split(region: Region, direction: Direction, constraints: &Vec<Constraint>, margin: u16) -> (
    out: Vec<Region>)
    requires
        region.wf(),
    ensures
        out@ == split_regions(region, direction, constraints@, margin as int),
{
    let ghost m: int = margin as int;
    let ghost cs = constraints@;

    // The usable (post-margin) region.
    let half_w: u16 = region.width / 2;
    let half_h: u16 = region.height / 2;
    let mx: u16 = if margin <= half_w {
        margin
    } else {
        half_w
    };
    let my: u16 = if margin <= half_h {
        margin
    } else {
        half_h
    };
    let ux: u16 = region.x + mx;
    let uy: u16 = region.y + my;
    let uw: u16 = if 2 * (margin as u32) <= region.width as u32 {
        region.width - 2 * margin
    } else {
        0
    };
    let uh: u16 = if 2 * (margin as u32) <= region.height as u32 {
        region.height - 2 * margin
    } else {
        0
    };
    proof {
        assert(ux as int == usable_x(region, m));
        assert(uy as int == usable_y(region, m));
        assert(uw as int == usable_w(region, m));
        assert(uh as int == usable_h(region, m));
    }
    let e: u16 = match direction {
        Direction::Horizontal => uw,
        Direction::Vertical => uh,
    };
    let ghost eint: int = e as int;
    proof {
        assert(eint == extent_of(region, direction, m));
    }

    let n = constraints.len();
    if n == 0 || e == 0 {
        let out: Vec<Region> = Vec::new();
        return out;
    }

    // First pass: hand out the fixed/percent cells left to right, count the
    // `Min` constraints and add up their minimum values (capped just above
    // the largest possible leftover, which is all that later comparisons
    // need).
    let mut avail: u16 = e;
    let mut kcount: usize = 0;
    let mut msum: u32 = 0;
    let ghost sfull: int = minsum_before(cs, n as int);
    let mut i: usize = 0;
    while i < n
        invariant
            i <= n,
            avail as int == avail_at(cs, eint, i as int),
            kcount as int == mins_before(cs, i as int),
            (if minsum_before(cs, i as int) <= 0xffff {
                msum as int == minsum_before(cs, i as int)
            } else {
                msum == 0x10000u32
            }),
            kcount <= i,
        decreases n - i,
    {
        proof {
            lemma_avail_bounds(cs, eint, i as int);
            lemma_want_nonneg(cs[i as int], eint);
        }
        match constraints[i] {
            Constraint::Fixed(v) => {
                let take: u16 = if v <= avail {
                    v
                } else {
                    avail
                };
                avail = avail - take;
            },
            Constraint::Percent(p) => {
                proof {
                    vstd::arithmetic::mul::lemma_mul_upper_bound(e as int, 0xffff, p as int, 0xffff);
                }
                let want32: u32 = (e as u32) * (p as u32) / 100;
                let take: u16 = if want32 <= avail as u32 {
                    want32 as u16
                } else {
                    avail
                };
                avail = avail - take;
            },
            Constraint::Min(v) => {
                kcount = kcount + 1;
                let grown: u32 = msum + v as u32;
                msum = if grown <= 0xffff {
                    grown
                } else {
                    0x10000
                };
            },
        }
        i = i + 1;
    }
    let l: u16 = avail;

    // Even shares of the leftover for the `Min` constraints: on top of their
    // minimums when the leftover covers them, in place of them when not.
    let kdiv: usize = if kcount == 0 {
        1
    } else {
        kcount
    };
    let extra: usize = if (msum as usize) <= l as usize {
        l as usize - msum as usize
    } else {
        0
    };
    let q: usize = extra / kdiv;
    let r: usize = extra % kdiv;
    let q2: usize = (l as usize) / kdiv;
    let r2: usize = (l as usize) % kdiv;
    proof {
        if kcount >= 1 {
            if msum as int <= l as int {
                assert(sfull == msum as int);
                vstd::arithmetic::div_mod::lemma_div_is_ordered_by_denominator(
                    extra as int,
                    1,
                    kdiv as int,
                );
                vstd::arithmetic::div_mod::lemma_mod_bound(extra as int, kdiv as int);
                if kdiv as int <= extra as int {
                    vstd::arithmetic::div_mod::lemma_mod_bound(extra as int, kdiv as int);
                } else {
                    vstd::arithmetic::div_mod::lemma_small_mod(extra as nat, kdiv as nat);
                }
            } else {
                assert(sfull > l as int);
            }
            vstd::arithmetic::div_mod::lemma_div_is_ordered_by_denominator(
                l as int,
                1,
                kdiv as int,
            );
            if kdiv as int <= l as int {
                vstd::arithmetic::div_mod::lemma_mod_bound(l as int, kdiv as int);
            } else {
                vstd::arithmetic::div_mod::lemma_small_mod(l as nat, kdiv as nat);
            }
        }
    }

    // Second pass: replay the fixed/percent grants, hand the `Min`
    // constraints their shares, and lay the children end to end.
    let mut out: Vec<Region> = Vec::new();
    let mut off: u16 = 0;
    let mut avail2: u16 = e;
    let mut minseen: usize = 0;
    let mut i2: usize = 0;
    while i2 < n
        invariant
            i2 <= n,
            out@.len() == i2,
            forall|t: int|
                0 <= t < i2 ==> out@[t] == child_region(region, direction, cs, m, t),
            off as int == ssum(cs, eint, i2 as int),
            avail2 as int == avail_at(cs, eint, i2 as int),
            minseen as int == mins_before(cs, i2 as int),
        decreases n - i2,
    {
        proof {
            lemma_avail_bounds(cs, eint, i2 as int);
            lemma_want_nonneg(cs[i2 as int], eint);
            lemma_size_nonneg(cs, eint, i2 as int);
            lemma_ssum_bounds(cs, eint, i2 as int);
            lemma_mins_before_nonneg(cs, n as int);
        }
        let size32: u32 = match constraints[i2] {
            Constraint::Fixed(v) => {
                let take: u16 = if v <= avail2 {
                    v
                } else {
                    avail2
                };
                avail2 = avail2 - take;
                if kcount == 0 && i2 == n - 1 {
                    take as u32 + l as u32
                } else {
                    take as u32
                }
            },
            Constraint::Percent(p) => {
                proof {
                    vstd::arithmetic::mul::lemma_mul_upper_bound(e as int, 0xffff, p as int, 0xffff);
                }
                let want32: u32 = (e as u32) * (p as u32) / 100;
                let take: u16 = if want32 <= avail2 as u32 {
                    want32 as u16
                } else {
                    avail2
                };
                avail2 = avail2 - take;
                if kcount == 0 && i2 == n - 1 {
                    take as u32 + l as u32
                } else {
                    take as u32
                }
            },
            Constraint::Min(v) => {
                proof {
                    lemma_mins_before_ge_one(cs, i2 as int, n as int);
                    let mm = if sfull <= l as int {
                        l - sfull
                    } else {
                        l as int
                    };
                    lemma_mdist_step(mm, kcount as int, minseen as int);
                }
                let sh: u32 = if (msum as usize) <= l as usize {
                    (v as u32) + (q as u32) + (if minseen < r {
                        1
                    } else {
                        0
                    })
                } else {
                    (q2 as u32) + (if minseen < r2 {
                        1
                    } else {
                        0
                    })
                };
                minseen = minseen + 1;
                sh
            },
        };
        proof {
            assert(size32 as int == size_at(cs, eint, i2 as int));
        }
        let size: u16 = size32 as u16;
        let child: Region = match direction {
            Direction::Vertical => Region { x: ux, y: uy + off, width: uw, height: size },
            Direction::Horizontal => Region { x: ux + off, y: uy, width: size, height: uh },
        };
        proof {
            assert(child == child_region(region, direction, cs, m, i2 as int));
        }
        out.push(child);
        off = off + size;
        i2 = i2 + 1;
    }
    proof {
        assert(out@ =~= split_regions(region, direction, cs, m));
    }
    out
}

// ---------------------------------------------------------------------------
// The tiling invariant.
// ---------------------------------------------------------------------------

/// Whether the cell at `(cx, cy)` lies inside the post-margin region.
pub open spec fn usable_contains(region: Region, m: int, cx: int, cy: int) -> bool {
    &&& usable_x(region, m) <= cx < usable_x(region, m) + usable_w(region, m)
    &&& usable_y(region, m) <= cy < usable_y(region, m) + usable_h(region, m)
}

/// Every offset within the total extent falls into some child's interval.
proof fn lemma_find_interval(cs: Seq<Constraint>, extent: int, d: int, hi: int)
    requires
        extent >= 0,
        0 < hi <= cs.len(),
        0 <= d < ssum(cs, extent, hi),
    ensures
        exists|i: int|
            0 <= i < hi && #[trigger] ssum(cs, extent, i) <= d < ssum(cs, extent, i) + size_at(
                cs,
                extent,
                i,
            ),
    decreases hi,
{
    if d >= ssum(cs, extent, hi - 1) {
        assert(ssum(cs, extent, hi - 1) <= d < ssum(cs, extent, hi - 1) + size_at(
            cs,
            extent,
            hi - 1,
        ));
    } else {
        assert(hi - 1 > 0);
        lemma_find_interval(cs, extent, d, hi - 1);
    }
}

/// The tiling invariant: the regions a split returns are pairwise disjoint,
/// and together they cover exactly the post-margin parent region — no cell
/// is lost to a gap and none is claimed twice.
pub proof fn lemma_split_tiles(
    region: Region,
    dir: Direction,
    cs: Seq<Constraint>,
    m: int,
    cx: int,
    cy: int,
)
    requires
        region.wf(),
        cs.len() >= 1,
        0 <= m <= u16::MAX,
    ensures
        ({
            let rs = split_regions(region, dir, cs, m);
            &&& ((exists|i: int| 0 <= i < rs.len() && rs[i].contains(cx, cy)) <==> usable_contains(
                region,
                m,
                cx,
                cy,
            ))
            &&& forall|i: int, j: int|
                0 <= i < rs.len() && 0 <= j < rs.len() && i != j ==> !(rs[i].contains(cx, cy)
                    && rs[j].contains(cx, cy))
        }),
{
    let rs = split_regions(region, dir, cs, m);
    let e = extent_of(region, dir, m);
    let n = cs.len() as int;
    let ux = usable_x(region, m);
    let uy = usable_y(region, m);
    let uw = usable_w(region, m);
    let uh = usable_h(region, m);
    if e <= 0 {
        assert(rs.len() == 0);
        assert(!usable_contains(region, m, cx, cy));
    } else {
        lemma_ssum_total(cs, e);
        // Each child's coordinates, as mathematical integers.
        assert forall|i: int| #![trigger rs[i]] 0 <= i < n implies {
            let d0 = ssum(cs, e, i);
            let sz = size_at(cs, e, i);
            match dir {
                Direction::Vertical => rs[i] == (Region {
                    x: ux as u16,
                    y: (uy + d0) as u16,
                    width: uw as u16,
                    height: sz as u16,
                }) && 0 <= d0 && d0 + sz <= e,
                Direction::Horizontal => rs[i] == (Region {
                    x: (ux + d0) as u16,
                    y: uy as u16,
                    width: sz as u16,
                    height: uh as u16,
                }) && 0 <= d0 && d0 + sz <= e,
            }
        } by {
            lemma_ssum_bounds(cs, e, i);
            lemma_size_nonneg(cs, e, i);
        }
        // The offset of the cell along the split direction, and its position
        // across it.
        let d = match dir {
            Direction::Vertical => cy - uy,
            Direction::Horizontal => cx - ux,
        };
        let perp_ok = match dir {
            Direction::Vertical => ux <= cx < ux + uw,
            Direction::Horizontal => uy <= cy < uy + uh,
        };
        // Membership in child i means: right strip along the direction,
        // inside the usable band across it.
        assert forall|i: int| 0 <= i < n implies (rs[i].contains(cx, cy) <==> (perp_ok && ssum(
            cs,
            e,
            i,
        ) <= d < ssum(cs, e, i) + size_at(cs, e, i))) by {
            lemma_ssum_bounds(cs, e, i);
            lemma_size_nonneg(cs, e, i);
        }
        if usable_contains(region, m, cx, cy) {
            assert(perp_ok && 0 <= d < e);
            lemma_find_interval(cs, e, d, n);
            let w = choose|i: int|
                0 <= i < n && #[trigger] ssum(cs, e, i) <= d < ssum(cs, e, i) + size_at(cs, e, i);
            assert(rs[w].contains(cx, cy));
        }
        if exists|i: int| 0 <= i < rs.len() && rs[i].contains(cx, cy) {
            let i = choose|i: int| 0 <= i < rs.len() && rs[i].contains(cx, cy);
            lemma_ssum_bounds(cs, e, i);
            lemma_size_nonneg(cs, e, i);
            assert(usable_contains(region, m, cx, cy));
        }
        assert forall|i: int, j: int|
            0 <= i < rs.len() && 0 <= j < rs.len() && i != j implies !(rs[i].contains(cx, cy)
            && rs[j].contains(cx, cy)) by {
            if rs[i].contains(cx, cy) && rs[j].contains(cx, cy) {
                if i < j {
                    lemma_ssum_mono(cs, e, i + 1, j);
                } else {
                    lemma_ssum_mono(cs, e, j + 1, i);
                }
            }
        }
    }
}


/// Every child region a split returns stays inside its parent region and is
/// itself well-formed.
pub proof fn lemma_split_children_bounds(region: Region, dir: Direction, cs: Seq<Constraint>, m: int)
    requires
        region.wf(),
        0 <= m,
    ensures
        forall|i: int|
            0 <= i < split_regions(region, dir, cs, m).len() ==> {
                let ch = #[trigger] split_regions(region, dir, cs, m)[i];
                &&& region.x <= ch.x
                &&& ch.x + ch.width <= region.x + region.width
                &&& region.y <= ch.y
                &&& ch.y + ch.height <= region.y + region.height
                &&& ch.wf()
            },
{
    let rs = split_regions(region, dir, cs, m);
    let e = extent_of(region, dir, m);
    let n = cs.len() as int;
    let ux = usable_x(region, m);
    let uy = usable_y(region, m);
    let uw = usable_w(region, m);
    let uh = usable_h(region, m);
    if !(cs.len() == 0 || e <= 0) {
        lemma_ssum_total(cs, e);
        assert forall|i: int| 0 <= i < rs.len() implies {
            let ch = #[trigger] rs[i];
            &&& region.x <= ch.x
            &&& ch.x + ch.width <= region.x + region.width
            &&& region.y <= ch.y
            &&& ch.y + ch.height <= region.y + region.height
            &&& ch.wf()
        } by {
            lemma_ssum_bounds(cs, e, i);
            lemma_size_nonneg(cs, e, i);
            assert(ux + uw <= region.x + region.width);
            assert(uy + uh <= region.y + region.height);
        }
    }
}

} // verus!
