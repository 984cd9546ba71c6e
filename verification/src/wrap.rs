//! Paragraph text flow: explicit newlines always break lines; with wrapping
//! on, each line is re-flowed greedily word by word to the content width,
//! splitting a word only when the word alone is wider than the line.

use vstd::prelude::*;
use crate::style::{SChar, Style, lit};

verus! {

/// The sequence of sequences a vector of rows denotes.
pub open spec fn rows_view(vv: Seq<Vec<SChar>>) -> Seq<Seq<SChar>> {
    Seq::new(vv.len(), |i: int| vv[i]@)
}

// ---------------------------------------------------------------------------
// Logical lines: split on explicit newlines, which are always honored.
// ---------------------------------------------------------------------------

/// The logical lines of `s[i..]`, `cur` being the line collected so far.
pub open spec fn logical_rec(s: Seq<SChar>, i: int, cur: Seq<SChar>) -> Seq<Seq<SChar>>
    decreases s.len() - i,
{
    if i < 0 || i >= s.len() {
        seq![cur]
    } else if s[i].ch == '\n' {
        seq![cur] + logical_rec(s, i + 1, Seq::empty())
    } else {
        logical_rec(s, i + 1, cur.push(s[i]))
    }
}

/// The newline-separated lines of a text (one empty line for an empty text).
pub open spec fn logical_lines(s: Seq<SChar>) -> Seq<Seq<SChar>> {
    logical_rec(s, 0, Seq::empty())
}

// ---------------------------------------------------------------------------
// Words: maximal runs of non-space characters.
// ---------------------------------------------------------------------------

/// The words of `s[i..]`, `cur` being the word collected so far.
pub open spec fn words_rec(s: Seq<SChar>, i: int, cur: Seq<SChar>) -> Seq<Seq<SChar>>
    decreases s.len() - i,
{
    if i < 0 || i >= s.len() {
        if cur.len() > 0 {
            seq![cur]
        } else {
            Seq::empty()
        }
    } else if s[i].ch == ' ' {
        if cur.len() > 0 {
            seq![cur] + words_rec(s, i + 1, Seq::empty())
        } else {
            words_rec(s, i + 1, Seq::empty())
        }
    } else {
        words_rec(s, i + 1, cur.push(s[i]))
    }
}

/// The words of a line.
pub open spec fn words_of(s: Seq<SChar>) -> Seq<Seq<SChar>> {
    words_rec(s, 0, Seq::empty())
}

// ---------------------------------------------------------------------------
// Wrapping.
// ---------------------------------------------------------------------------

/// A word wider than the line, cut into width-sized fragments, each on its
/// own line.
pub open spec fn hard_break(w: Seq<SChar>, width: int) -> Seq<Seq<SChar>>
    decreases w.len(),
{
    if width <= 0 || w.len() <= width {
        seq![w]
    } else {
        seq![w.take(width)] + hard_break(w.skip(width), width)
    }
}

/// Greedy re-flow of `words[i..]` to `width`, `cur` being the line being
/// filled: a word joins the current line when it fits after a separating
/// space, opens a new line when not, and is hard-broken when wider than the
/// whole line.
pub open spec fn greedy(words: Seq<Seq<SChar>>, i: int, cur: Seq<SChar>, width: int) -> Seq<
    Seq<SChar>,
>
    decreases words.len() - i,
{
    if i < 0 || i >= words.len() {
        if cur.len() > 0 {
            seq![cur]
        } else {
            Seq::empty()
        }
    } else {
        let w = words[i];
        if w.len() > width {
            let flushed = if cur.len() > 0 {
                seq![cur]
            } else {
                Seq::empty()
            };
            flushed + hard_break(w, width) + greedy(words, i + 1, Seq::empty(), width)
        } else if cur.len() == 0 {
            greedy(words, i + 1, w, width)
        } else if cur.len() + 1 + w.len() <= width {
            greedy(words, i + 1, cur + seq![lit(' ')] + w, width)
        } else {
            seq![cur] + greedy(words, i + 1, w, width)
        }
    }
}

/// One logical line re-flowed to `width`.
pub open spec fn wrap_line(s: Seq<SChar>, width: int) -> Seq<Seq<SChar>> {
    greedy(words_of(s), 0, Seq::empty(), width)
}

/// The visual lines one logical line contributes: re-flowed when wrapping
/// (an all-space line still claims one blank row), truncated when not.
pub open spec fn line_block(ll: Seq<SChar>, width: int, wrap: bool) -> Seq<Seq<SChar>> {
    if wrap {
        let wl = wrap_line(ll, width);
        if wl.len() == 0 {
            seq![Seq::<SChar>::empty()]
        } else {
            wl
        }
    } else {
        if ll.len() <= width {
            seq![ll]
        } else {
            seq![ll.take(width)]
        }
    }
}

/// The visual lines of `lls[j..]`.
pub open spec fn blocks_rec(lls: Seq<Seq<SChar>>, j: int, width: int, wrap: bool) -> Seq<
    Seq<SChar>,
>
    decreases lls.len() - j,
{
    if j < 0 || j >= lls.len() {
        Seq::empty()
    } else {
        line_block(lls[j], width, wrap) + blocks_rec(lls, j + 1, width, wrap)
    }
}

/// All visual lines of a paragraph text, top to bottom.
pub open spec fn para_lines(spans: Seq<SChar>, width: int, wrap: bool) -> Seq<Seq<SChar>> {
    blocks_rec(logical_lines(spans), 0, width, wrap)
}

// ---------------------------------------------------------------------------
// Wrap correctness.
// ---------------------------------------------------------------------------

/// Every hard-break fragment fits the width (a word already within the
/// width stays whole and fits as well).
proof fn lemma_hard_break_width(w: Seq<SChar>, width: int)
    requires
        width >= 1,
    ensures
        forall|t: int|
            0 <= t < hard_break(w, width).len() ==> #[trigger] hard_break(w, width)[t].len()
                <= width,
    decreases w.len(),
{
    if w.len() > width {
        lemma_hard_break_width(w.skip(width), width);
        let hb = hard_break(w, width);
        assert(hb == seq![w.take(width)] + hard_break(w.skip(width), width));
        assert forall|t: int| 0 <= t < hb.len() implies #[trigger] hb[t].len() <= width by {
            if t == 0 {
                assert(hb[0] == w.take(width));
            } else {
                assert(hb[t] == hard_break(w.skip(width), width)[t - 1]);
            }
        }
    }
}

/// Every greedy line fits the width.
proof fn lemma_greedy_width(words: Seq<Seq<SChar>>, i: int, cur: Seq<SChar>, width: int)
    requires
        width >= 1,
        cur.len() <= width,
    ensures
        forall|t: int|
            0 <= t < greedy(words, i, cur, width).len() ==> #[trigger] greedy(
                words,
                i,
                cur,
                width,
            )[t].len() <= width,
    decreases words.len() - i,
{
    if i < 0 || i >= words.len() {
        let g = greedy(words, i, cur, width);
        assert forall|t: int| 0 <= t < g.len() implies #[trigger] g[t].len() <= width by {
            assert(g[t] == cur);
        }
    } else {
        let w = words[i];
        if w.len() > width {
            lemma_hard_break_width(w, width);
            lemma_greedy_width(words, i + 1, Seq::empty(), width);
            let flushed = if cur.len() > 0 {
                seq![cur]
            } else {
                Seq::<Seq<SChar>>::empty()
            };
            let hb = hard_break(w, width);
            let rest = greedy(words, i + 1, Seq::empty(), width);
            assert forall|t: int|
                0 <= t < greedy(words, i, cur, width).len() implies #[trigger] greedy(
                words,
                i,
                cur,
                width,
            )[t].len() <= width by {
                let g = greedy(words, i, cur, width);
                assert(g == flushed + hb + rest);
                if t < flushed.len() {
                    assert(g[t] == cur);
                } else if t < flushed.len() + hb.len() {
                    assert(g[t] == hb[t - flushed.len()]);
                } else {
                    assert(g[t] == rest[t - flushed.len() - hb.len()]);
                }
            }
        } else if cur.len() == 0 {
            lemma_greedy_width(words, i + 1, w, width);
            assert(greedy(words, i, cur, width) == greedy(words, i + 1, w, width));
        } else if cur.len() + 1 + w.len() <= width {
            lemma_greedy_width(words, i + 1, cur + seq![lit(' ')] + w, width);
            assert(greedy(words, i, cur, width) == greedy(words, i + 1, cur + seq![lit(' ')] + w, width));
        } else {
            lemma_greedy_width(words, i + 1, w, width);
            let rest = greedy(words, i + 1, w, width);
            assert forall|t: int|
                0 <= t < greedy(words, i, cur, width).len() implies #[trigger] greedy(
                words,
                i,
                cur,
                width,
            )[t].len() <= width by {
                let g = greedy(words, i, cur, width);
                assert(g == seq![cur] + rest);
                if t == 0 {
                    assert(g[0] == cur);
                } else {
                    assert(g[t] == rest[t - 1]);
                }
            }
        }
    }
}

/// Wrap correctness, first half: with wrapping on, no produced visual line of
/// a paragraph is ever wider than the wrap width — whether its words fit the
/// width or had to be hard-broken.
pub proof fn lemma_wrap_width(spans: Seq<SChar>, width: int, t: int)
    requires
        width >= 1,
        0 <= t < para_lines(spans, width, true).len(),
    ensures
        para_lines(spans, width, true)[t].len() <= width,
{
    lemma_blocks_width(logical_lines(spans), 0, width, t);
}

/// Every visual line of every block fits the width.
proof fn lemma_blocks_width(lls: Seq<Seq<SChar>>, j: int, width: int, t: int)
    requires
        width >= 1,
        0 <= t < blocks_rec(lls, j, width, true).len(),
    ensures
        blocks_rec(lls, j, width, true)[t].len() <= width,
    decreases lls.len() - j,
{
    if j < 0 || j >= lls.len() {
    } else {
        let b = line_block(lls[j], width, true);
        lemma_greedy_width(words_of(lls[j]), 0, Seq::empty(), width);
        if t < b.len() {
            assert(blocks_rec(lls, j, width, true)[t] == b[t]);
        } else {
            lemma_blocks_width(lls, j + 1, width, t - b.len());
            assert(blocks_rec(lls, j, width, true)[t] == blocks_rec(lls, j + 1, width, true)[t
                - b.len()]);
        }
    }
}

/// For a line with no space in it, the words are the whole line.
proof fn lemma_words_nospace(s: Seq<SChar>, i: int, cur: Seq<SChar>)
    requires
        0 <= i <= s.len(),
        cur.len() + s.len() - i > 0,
        forall|t: int| i <= t < s.len() ==> s[t].ch != ' ',
    ensures
        words_rec(s, i, cur) == seq![cur + s.skip(i)],
    decreases s.len() - i,
{
    if i == s.len() {
        assert(cur + s.skip(i) =~= cur);
    } else {
        lemma_words_nospace(s, i + 1, cur.push(s[i]));
        assert(cur.push(s[i]) + s.skip(i + 1) =~= cur + s.skip(i));
    }
}

/// Wrap correctness, second half: a single word wider than the width is
/// hard-broken, and the produced fragments are exactly the visual lines —
/// each fragment on a line of its own.
pub proof fn lemma_hard_break_single(s: Seq<SChar>, width: int)
    requires
        width >= 1,
        s.len() > width,
        forall|t: int| 0 <= t < s.len() ==> s[t].ch != ' ',
    ensures
        wrap_line(s, width) == hard_break(s, width),
{
    lemma_words_nospace(s, 0, Seq::empty());
    assert(Seq::<SChar>::empty() + s.skip(0) =~= s);
    assert(words_of(s) == seq![s]);
    let g = greedy(seq![s], 0, Seq::empty(), width);
    assert(g == Seq::<Seq<SChar>>::empty() + hard_break(s, width) + greedy(
        seq![s],
        1,
        Seq::empty(),
        width,
    ));
    assert(Seq::<Seq<SChar>>::empty() + hard_break(s, width) + Seq::<Seq<SChar>>::empty()
        =~= hard_break(s, width));
}


// ---------------------------------------------------------------------------
// Executable text flow.
// ---------------------------------------------------------------------------

/// One row pushed onto a row vector extends its view by that row.
proof fn lemma_rows_push(vv: Seq<Vec<SChar>>, v: Vec<SChar>)
    ensures
        rows_view(vv.push(v)) =~= rows_view(vv) + seq![v@],
{
}

/// Rows of a concatenation are the concatenated rows.
proof fn lemma_rows_concat(a: Seq<Vec<SChar>>, b: Seq<Vec<SChar>>)
    ensures
        rows_view(a + b) =~= rows_view(a) + rows_view(b),
{
}

/// Append every character of `src` to `dst`.
pub(crate) fn extend_schars(dst: &mut Vec<SChar>, src: &Vec<SChar>)
    ensures
        final(dst)@ == old(dst)@ + src@,
{
    let ghost dst0 = old(dst)@;
    let mut i: usize = 0;
    while i < src.len()
        invariant
            i <= src.len(),
            dst@ =~= dst0 + src@.take(i as int),
        decreases src.len() - i,
    {
        dst.push(src[i]);
        proof {
            assert(dst@ =~= dst0 + src@.take(i + 1));
        }
        i = i + 1;
    }
    proof {
        assert(dst@ =~= dst0 + src@);
    }
}

/// Split a text into its newline-separated logical lines.
#[verifier::loop_isolation(false)]
pub fn split_logical(spans: &Vec<SChar>) -> (out: Vec<Vec<SChar>>)
    ensures
        rows_view(out@) == logical_lines(spans@),
{
    let mut out: Vec<Vec<SChar>> = Vec::new();
    let mut cur: Vec<SChar> = Vec::new();
    let mut i: usize = 0;
    while i < spans.len()
        invariant
            i <= spans.len(),
            logical_lines(spans@) =~= rows_view(out@) + logical_rec(spans@, i as int, cur@),
        decreases spans.len() - i,
    {
        let c = spans[i];
        if c.ch == '\n' {
            let ghost out0 = out@;
            let ghost curv = cur;
            out.push(cur);
            cur = Vec::new();
            proof {
                lemma_rows_push(out0, curv);
                assert(rows_view(out@) + logical_rec(spans@, i + 1, cur@) =~= rows_view(out0) + (
                seq![curv@] + logical_rec(spans@, i + 1, Seq::empty())));
            }
        } else {
            cur.push(c);
        }
        i = i + 1;
    }
    let ghost out0 = out@;
    let ghost curv = cur;
    out.push(cur);
    proof {
        lemma_rows_push(out0, curv);
        assert(rows_view(out@) =~= rows_view(out0) + seq![curv@]);
        assert(rows_view(out@) =~= logical_lines(spans@));
    }
    out
}

/// Split a line into its words: maximal runs of non-space characters.
#[verifier::loop_isolation(false)]
pub fn split_words(line: &Vec<SChar>) -> (out: Vec<Vec<SChar>>)
    ensures
        rows_view(out@) == words_of(line@),
{
    let mut out: Vec<Vec<SChar>> = Vec::new();
    let mut cur: Vec<SChar> = Vec::new();
    let mut i: usize = 0;
    while i < line.len()
        invariant
            i <= line.len(),
            words_of(line@) =~= rows_view(out@) + words_rec(line@, i as int, cur@),
        decreases line.len() - i,
    {
        let c = line[i];
        if c.ch == ' ' {
            proof {
                if cur@.len() == 0 {
                    assert(cur@ =~= Seq::<SChar>::empty());
                }
            }
            if cur.len() > 0 {
                let ghost out0 = out@;
                let ghost curv = cur;
                out.push(cur);
                cur = Vec::new();
                proof {
                    lemma_rows_push(out0, curv);
                    assert(rows_view(out@) + words_rec(line@, i + 1, cur@)
                        =~= rows_view(out0) + (seq![curv@] + words_rec(
                        line@,
                        i + 1,
                        Seq::empty(),
                    )));
                }
            }
        } else {
            cur.push(c);
        }
        i = i + 1;
    }
    if cur.len() > 0 {
        let ghost out0 = out@;
        let ghost curv = cur;
        out.push(cur);
        proof {
            lemma_rows_push(out0, curv);
            assert(rows_view(out@) =~= rows_view(out0) + seq![curv@]);
        }
    }
    proof {
        assert(rows_view(out@) =~= words_of(line@));
    }
    out
}

/// Cut a word into width-sized fragments and push each as its own row.
#[verifier::loop_isolation(false)]
fn hard_break_push(out: &mut Vec<Vec<SChar>>, w: &Vec<SChar>, width: u16)
    requires
        width >= 1,
    ensures
        rows_view(final(out)@) == rows_view(old(out)@) + hard_break(w@, width as int),
{
    let ghost rows0 = rows_view(old(out)@);
    let wd: usize = width as usize;
    let mut pos: usize = 0;
    proof {
        assert(w@.skip(0) =~= w@);
    }
    while w.len() - pos > wd
        invariant
            pos <= w@.len(),
            rows0 + hard_break(w@, width as int) =~= rows_view(out@) + hard_break(
                w@.skip(pos as int),
                width as int,
            ),
        decreases w.len() - pos,
    {
        let mut chunk: Vec<SChar> = Vec::new();
        let mut j: usize = pos;
        while j < pos + wd
            invariant
                pos <= j <= pos + wd,
                pos + wd <= w@.len(),
                chunk@ =~= w@.subrange(pos as int, j as int),
            decreases pos + wd - j,
        {
            chunk.push(w[j]);
            proof {
                assert(chunk@ =~= w@.subrange(pos as int, j + 1));
            }
            j = j + 1;
        }
        let ghost out0 = out@;
        let ghost chv = chunk;
        out.push(chunk);
        proof {
            lemma_rows_push(out0, chv);
            assert(chv@ =~= w@.skip(pos as int).take(width as int));
            vstd::seq_lib::lemma_seq_skip_of_skip(w@, pos as int, width as int);
            assert(hard_break(w@.skip(pos as int), width as int) == seq![chv@] + hard_break(
                w@.skip(pos + width as int),
                width as int,
            ));
            assert(rows_view(out@) + hard_break(w@.skip(pos + width as int), width as int)
                =~= rows_view(out0) + (seq![chv@] + hard_break(
                w@.skip(pos + width as int),
                width as int,
            )));
        }
        pos = pos + wd;
    }
    let mut chunk: Vec<SChar> = Vec::new();
    let mut j: usize = pos;
    while j < w.len()
        invariant
            pos <= j <= w@.len(),
            chunk@ =~= w@.subrange(pos as int, j as int),
        decreases w.len() - j,
    {
        chunk.push(w[j]);
        proof {
            assert(chunk@ =~= w@.subrange(pos as int, j + 1));
        }
        j = j + 1;
    }
    let ghost out0 = out@;
    let ghost chv = chunk;
    out.push(chunk);
    proof {
        lemma_rows_push(out0, chv);
        assert(chv@ =~= w@.skip(pos as int));
        assert(hard_break(w@.skip(pos as int), width as int) == seq![w@.skip(pos as int)]);
        assert(rows_view(out@) =~= rows_view(out0) + seq![chv@]);
        assert(rows_view(out@) =~= rows0 + hard_break(w@, width as int));
    }
}

/// Re-flow one logical line greedily to the width.
#[verifier::loop_isolation(false)]
pub fn wrap_one(line: &Vec<SChar>, width: u16) -> (out: Vec<Vec<SChar>>)
    requires
        width >= 1,
    ensures
        rows_view(out@) == wrap_line(line@, width as int),
{
    let words = split_words(line);
    let ghost wseq = words_of(line@);
    let mut out: Vec<Vec<SChar>> = Vec::new();
    let mut cur: Vec<SChar> = Vec::new();
    let mut i: usize = 0;
    while i < words.len()
        invariant
            i <= words.len(),
            cur@.len() <= width as int,
            wrap_line(line@, width as int) =~= rows_view(out@) + greedy(
                wseq,
                i as int,
                cur@,
                width as int,
            ),
        decreases words.len() - i,
    {
        proof {
            assert(wseq[i as int] == words@[i as int]@);
        }
        let wlen = words[i].len();
        if wlen > width as usize {
            let ghost out_before = out@;
            let ghost cur0 = cur@;
            if cur.len() > 0 {
                let ghost out0 = out@;
                let ghost curv = cur;
                out.push(cur);
                cur = Vec::new();
                proof {
                    lemma_rows_push(out0, curv);
                }
            }
            let ghost out_mid = out@;
            hard_break_push(&mut out, &words[i], width);
            proof {
                let w = wseq[i as int];
                let ghost flushed = if cur0.len() > 0 {
                    seq![cur0]
                } else {
                    Seq::<Seq<SChar>>::empty()
                };
                assert(cur@ =~= Seq::<SChar>::empty());
                assert(rows_view(out_mid) =~= rows_view(out_before) + flushed);
                assert(greedy(wseq, i as int, cur0, width as int) == flushed + hard_break(
                    w,
                    width as int,
                ) + greedy(wseq, i + 1, Seq::empty(), width as int));
                assert(rows_view(out@) + greedy(wseq, i + 1, cur@, width as int) =~= rows_view(
                    out_before,
                ) + greedy(wseq, i as int, cur0, width as int));
            }
        } else if cur.len() == 0 {
            extend_schars(&mut cur, &words[i]);
            proof {
                assert(cur@ =~= words@[i as int]@);
            }
        } else if cur.len() + 1 + wlen <= width as usize {
            let ghost cur0 = cur@;
            cur.push(SChar { ch: ' ', style: Style::plain() });
            extend_schars(&mut cur, &words[i]);
            proof {
                assert(cur@ =~= cur0 + seq![lit(' ')] + words@[i as int]@);
            }
        } else {
            let ghost out0 = out@;
            let ghost curv = cur;
            out.push(cur);
            cur = Vec::new();
            extend_schars(&mut cur, &words[i]);
            proof {
                lemma_rows_push(out0, curv);
                assert(cur@ =~= words@[i as int]@);
                assert(rows_view(out@) + greedy(wseq, i + 1, cur@, width as int) =~= rows_view(
                    out0,
                ) + (seq![curv@] + greedy(wseq, i + 1, words@[i as int]@, width as int)));
            }
        }
        i = i + 1;
    }
    if cur.len() > 0 {
        let ghost out0 = out@;
        let ghost curv = cur;
        out.push(cur);
        proof {
            lemma_rows_push(out0, curv);
            assert(rows_view(out@) =~= rows_view(out0) + seq![curv@]);
        }
    }
    proof {
        assert(rows_view(out@) =~= wrap_line(line@, width as int));
    }
    out
}


/// All visual rows of a paragraph text: logical lines split on newlines,
/// each re-flowed to the width (or truncated when wrapping is off).
#[verifier::loop_isolation(false)]
pub fn para_rows(spans: &Vec<SChar>, width: u16, wrap: bool) -> (out: Vec<Vec<SChar>>)
    requires
        width >= 1,
    ensures
        rows_view(out@) == para_lines(spans@, width as int, wrap),
{
    let lls = split_logical(spans);
    let ghost llseq = logical_lines(spans@);
    let mut out: Vec<Vec<SChar>> = Vec::new();
    let mut j: usize = 0;
    while j < lls.len()
        invariant
            j <= lls.len(),
            para_lines(spans@, width as int, wrap) =~= rows_view(out@) + blocks_rec(
                llseq,
                j as int,
                width as int,
                wrap,
            ),
        decreases lls.len() - j,
    {
        proof {
            assert(llseq[j as int] == lls@[j as int]@);
        }
        let ghost out_before = out@;
        if wrap {
            let mut wl = wrap_one(&lls[j], width);
            if wl.len() == 0 {
                let ghost out0 = out@;
                let empty_row: Vec<SChar> = Vec::new();
                let ghost erow = empty_row;
                out.push(empty_row);
                proof {
                    lemma_rows_push(out0, erow);
                    assert(line_block(llseq[j as int], width as int, wrap) =~= seq![
                        Seq::<SChar>::empty()]);
                    assert(rows_view(out@) =~= rows_view(out0) + line_block(
                        llseq[j as int],
                        width as int,
                        wrap,
                    ));
                }
            } else {
                let ghost out0 = out@;
                let ghost wl0 = wl@;
                out.append(&mut wl);
                proof {
                    lemma_rows_concat(out0, wl0);
                    assert(rows_view(out@) =~= rows_view(out0) + rows_view(wl0));
                    assert(rows_view(out@) =~= rows_view(out0) + line_block(
                        llseq[j as int],
                        width as int,
                        wrap,
                    ));
                }
            }
        } else {
            let ll = &lls[j];
            let keep: usize = if ll.len() <= width as usize {
                ll.len()
            } else {
                width as usize
            };
            let mut row: Vec<SChar> = Vec::new();
            let mut t: usize = 0;
            while t < keep
                invariant
                    t <= keep,
                    keep <= ll@.len(),
                    row@ =~= ll@.subrange(0, t as int),
                decreases keep - t,
            {
                row.push(ll[t]);
                proof {
                    assert(row@ =~= ll@.subrange(0, t + 1));
                }
                t = t + 1;
            }
            let ghost out0 = out@;
            let ghost rowv = row;
            out.push(row);
            proof {
                lemma_rows_push(out0, rowv);
                if ll@.len() <= width as int {
                    assert(rowv@ =~= ll@);
                } else {
                    assert(rowv@ =~= ll@.take(width as int));
                }
                assert(rows_view(out@) =~= rows_view(out0) + line_block(
                    llseq[j as int],
                    width as int,
                    wrap,
                ));
            }
        }
        proof {
            assert(rows_view(out@) + blocks_rec(llseq, j + 1, width as int, wrap) =~= rows_view(
                out_before,
            ) + blocks_rec(llseq, j as int, width as int, wrap));
        }
        j = j + 1;
    }
    proof {
        assert(rows_view(out@) =~= para_lines(spans@, width as int, wrap));
    }
    out
}

} // verus!
