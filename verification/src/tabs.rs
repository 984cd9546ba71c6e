//! Tab controller: an ordered list of tab titles and the currently selected
//! index, with wraparound `next`/`previous` transitions.

use vstd::prelude::*;

verus! {

/// The set of selectable tabs. Invariant: `titles` is non-empty and
/// `selection` indexes into it.
pub struct MyTabs<'a> {
    pub titles: Vec<&'a str>,
    pub selection: usize,
}

/// The selection after one forward step with wraparound.
pub open spec fn next_sel(sel: int, len: int) -> int
    recommends
        len > 0,
{
    (sel + 1) % len
}

/// The selection after one backward step with wraparound.
pub open spec fn prev_sel(sel: int, len: int) -> int
    recommends
        len > 0,
{
    if sel > 0 {
        sel - 1
    } else {
        len - 1
    }
}

/// The selection after `k` forward steps with wraparound.
pub open spec fn iter_next_sel(sel: int, len: int, k: nat) -> int
    recommends
        len > 0,
    decreases k,
{
    if k == 0 {
        sel
    } else {
        next_sel(iter_next_sel(sel, len, (k - 1) as nat), len)
    }
}

impl<'a> MyTabs<'a> {
    /// Well-formedness: at least one tab, selection in range.
    pub open spec fn wf(self) -> bool {
        self.titles@.len() > 0 && self.selection < self.titles@.len()
    }

    /// Advance the selection by one, wrapping to the first tab after the last.
    pub fn next(&mut self)
        requires
            old(self).wf(),
        ensures
            final(self).wf(),
            final(self).titles == old(self).titles,
            final(self).selection == next_sel(
                old(self).selection as int,
                old(self).titles@.len() as int,
            ),
    {
        let n = self.titles.len();
        self.selection = (self.selection + 1) % n;
    }

    /// Move the selection back by one, wrapping to the last tab before the first.
    pub fn previous(&mut self)
        requires
            old(self).wf(),
        ensures
            final(self).wf(),
            final(self).titles == old(self).titles,
            final(self).selection == prev_sel(
                old(self).selection as int,
                old(self).titles@.len() as int,
            ),
    {
        if self.selection > 0 {
            self.selection -= 1;
        } else {
            self.selection = self.titles.len() - 1;
        }
    }
}

/// `k` forward steps land on `(sel + k) mod len`.
proof fn lemma_iter_next_adds(sel: int, len: int, k: nat)
    requires
        len > 0,
        0 <= sel < len,
    ensures
        iter_next_sel(sel, len, k) == (sel + k) % len,
    decreases k,
{
    if k == 0 {
        vstd::arithmetic::div_mod::lemma_small_mod(sel as nat, len as nat);
    } else {
        lemma_iter_next_adds(sel, len, (k - 1) as nat);
        let prev = (sel + k - 1) % len;
        assert(iter_next_sel(sel, len, k) == (prev + 1) % len);
        assert((prev + 1) % len == (sel + k) % len) by {
            vstd::arithmetic::div_mod::lemma_add_mod_noop_right(1, sel + k - 1, len);
        }
    }
}

/// Tab wraparound: for a tab set of size `len`, `len` forward steps return the
/// selection to where it started, and one backward step from index 0 lands on
/// the last tab.
pub proof fn lemma_tab_wraparound(sel: int, len: int)
    requires
        len > 0,
        0 <= sel < len,
    ensures
        iter_next_sel(sel, len, len as nat) == sel,
        prev_sel(0, len) == len - 1,
{
    lemma_iter_next_adds(sel, len, len as nat);
    assert((sel + len) % len == sel) by {
        vstd::arithmetic::div_mod::lemma_mod_add_multiples_vanish(sel, len);
        vstd::arithmetic::div_mod::lemma_small_mod(sel as nat, len as nat);
    }
}

} // verus!
