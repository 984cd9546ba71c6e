//! Inline style markup: `{mod=bold;fg=yellow like this}` styles the enclosed
//! run and resets at the closing brace. Unterminated or unknown tags are no
//! error: they render verbatim as literal text.

use vstd::prelude::*;
use crate::style::{Style, Color, SChar, plain_style, lit, lits, styled_run, mk_schar};

verus! {

// ---------------------------------------------------------------------------
// Tags. A tag is `;`-separated items between `{` and the first space; each
// item must be a recognized `mod=`/`fg=` setting or the tag is unknown.
// ---------------------------------------------------------------------------

pub open spec fn item_mod_bold() -> Seq<char> {
    seq!['m', 'o', 'd', '=', 'b', 'o', 'l', 'd']
}

pub open spec fn item_fg_yellow() -> Seq<char> {
    seq!['f', 'g', '=', 'y', 'e', 'l', 'l', 'o', 'w']
}

pub open spec fn item_fg_green() -> Seq<char> {
    seq!['f', 'g', '=', 'g', 'r', 'e', 'e', 'n']
}

pub open spec fn item_fg_magenta() -> Seq<char> {
    seq!['f', 'g', '=', 'm', 'a', 'g', 'e', 'n', 't', 'a']
}

pub open spec fn item_fg_white() -> Seq<char> {
    seq!['f', 'g', '=', 'w', 'h', 'i', 't', 'e']
}

pub open spec fn item_fg_black() -> Seq<char> {
    seq!['f', 'g', '=', 'b', 'l', 'a', 'c', 'k']
}

/// What one tag item does to the style; `None` for an unrecognized item.
pub open spec fn apply_item(item: Seq<char>, st: Style) -> Option<Style> {
    if item == item_mod_bold() {
        Some(Style { fg: st.fg, bg: st.bg, bold: true })
    } else if item == item_fg_yellow() {
        Some(Style { fg: Color::Yellow, bg: st.bg, bold: st.bold })
    } else if item == item_fg_green() {
        Some(Style { fg: Color::Green, bg: st.bg, bold: st.bold })
    } else if item == item_fg_magenta() {
        Some(Style { fg: Color::Magenta, bg: st.bg, bold: st.bold })
    } else if item == item_fg_white() {
        Some(Style { fg: Color::White, bg: st.bg, bold: st.bold })
    } else if item == item_fg_black() {
        Some(Style { fg: Color::Black, bg: st.bg, bold: st.bold })
    } else {
        None
    }
}

/// Fold the `;`-separated items of `buf[from..]` over the style; `None` as
/// soon as one item is unknown.
pub open spec fn tag_items(buf: Seq<char>, i: int, item: Seq<char>, st: Style) -> Option<Style>
    decreases buf.len() - i,
{
    if i >= buf.len() {
        apply_item(item, st)
    } else if buf[i] == ';' {
        match apply_item(item, st) {
            Some(st2) => tag_items(buf, i + 1, Seq::empty(), st2),
            None => None,
        }
    } else {
        tag_items(buf, i + 1, item.push(buf[i]), st)
    }
}

/// The style a whole tag buffer (still carrying its leading `{`) denotes,
/// or `None` for an unknown tag.
pub open spec fn parse_tag(buf: Seq<char>) -> Option<Style> {
    tag_items(buf, 1, Seq::empty(), plain_style())
}

// ---------------------------------------------------------------------------
// Scanning. One character at a time: outside any markup, collecting a tag
// after `{`, or collecting a styled span after a recognized tag. Span text
// is withheld until its closing brace arrives; if the input ends first, the
// whole span renders verbatim instead.
// ---------------------------------------------------------------------------

/// Parser state: outside markup; inside a tag (the raw text since `{`); or
/// inside a styled span (its style, the raw text since `{` for the verbatim
/// fallback, and the span content so far).
pub enum PState {
    Outside,
    InTag(Seq<char>),
    InSpan(Style, Seq<char>, Seq<char>),
}

/// The styled characters that the rest of the text denotes, one input
/// character per step.
pub open spec fn scan(s: Seq<char>, i: int, st: PState) -> Seq<SChar>
    decreases s.len() - i,
{
    if i < 0 || i >= s.len() {
        match st {
            PState::Outside => Seq::empty(),
            PState::InTag(buf) => lits(buf),
            PState::InSpan(_, raw, _) => lits(raw),
        }
    } else {
        let c = s[i];
        match st {
            PState::Outside => {
                if c == '{' {
                    scan(s, i + 1, PState::InTag(seq!['{']))
                } else {
                    seq![lit(c)] + scan(s, i + 1, PState::Outside)
                }
            },
            PState::InTag(buf) => {
                if c == ' ' {
                    match parse_tag(buf) {
                        Some(style) => scan(
                            s,
                            i + 1,
                            PState::InSpan(style, buf.push(' '), Seq::empty()),
                        ),
                        None => lits(buf.push(' ')) + scan(s, i + 1, PState::Outside),
                    }
                } else if c == '}' {
                    lits(buf.push('}')) + scan(s, i + 1, PState::Outside)
                } else {
                    scan(s, i + 1, PState::InTag(buf.push(c)))
                }
            },
            PState::InSpan(style, raw, content) => {
                if c == '}' {
                    styled_run(content, style) + scan(s, i + 1, PState::Outside)
                } else {
                    scan(s, i + 1, PState::InSpan(style, raw.push(c), content.push(c)))
                }
            },
        }
    }
}

/// The styled characters a text denotes once its markup is interpreted.
pub open spec fn spans_of(s: Seq<char>) -> Seq<SChar> {
    scan(s, 0, PState::Outside)
}

// ---------------------------------------------------------------------------
// Executable parser.
// ---------------------------------------------------------------------------

/// Which spec state the executable scanner is in; its buffers live in
/// separate vectors.
#[derive(Clone, Copy, PartialEq, Eq, Structural, Debug)]
enum Mode {
    Outside,
    InTag,
    InSpan,
}

/// Append a run of characters as default-styled literals.
proof fn lemma_lit_step(out0: Seq<SChar>, outpre: Seq<SChar>, s: Seq<char>, i: int)
    requires
        0 <= i < s.len(),
        outpre =~= out0 + lits(s).take(i),
    ensures
        outpre.push(lit(s[i])) =~= out0 + lits(s).take(i + 1),
{
}

proof fn lemma_styled_step(out0: Seq<SChar>, outpre: Seq<SChar>, s: Seq<char>, st: Style, i: int)
    requires
        0 <= i < s.len(),
        outpre =~= out0 + styled_run(s, st).take(i),
    ensures
        outpre.push(SChar { ch: s[i], style: st }) =~= out0 + styled_run(s, st).take(i + 1),
{
    assert(styled_run(s, st)[i] == SChar { ch: s[i], style: st });
}

proof fn lemma_take_full(s: Seq<SChar>)
    ensures
        s.take(s.len() as int) =~= s,
{
}

fn push_lits(out: &mut Vec<SChar>, buf: &Vec<char>)
    ensures
        final(out)@ == old(out)@ + lits(buf@),
{
    let ghost out0 = old(out)@;
    let mut i: usize = 0;
    while i < buf.len()
        invariant
            i <= buf.len(),
            out@ =~= out0 + lits(buf@).take(i as int),
        decreases buf.len() - i,
    {
        let ghost pre = out@;
        out.push(SChar { ch: buf[i], style: Style::plain() });
        proof {
            lemma_lit_step(out0, pre, buf@, i as int);
            assert(out@ =~= pre.push(lit(buf@[i as int])));
        }
        i = i + 1;
    }
    proof {
        lemma_take_full(lits(buf@));
        assert(out@ =~= out0 + lits(buf@));
    }
}

/// Append a run of characters in one style.
fn push_styled(out: &mut Vec<SChar>, buf: &Vec<char>, style: Style)
    ensures
        final(out)@ == old(out)@ + styled_run(buf@, style),
{
    let ghost out0 = old(out)@;
    let mut i: usize = 0;
    while i < buf.len()
        invariant
            i <= buf.len(),
            out@ =~= out0 + styled_run(buf@, style).take(i as int),
        decreases buf.len() - i,
    {
        let ghost pre = out@;
        out.push(SChar { ch: buf[i], style });
        proof {
            lemma_styled_step(out0, pre, buf@, style, i as int);
            assert(out@ =~= pre.push(SChar { ch: buf@[i as int], style }));
        }
        i = i + 1;
    }
    proof {
        lemma_take_full(styled_run(buf@, style));
        assert(out@ =~= out0 + styled_run(buf@, style));
    }
}

/// What one tag item does to the style.
fn item_style(item: &Vec<char>, st: Style) -> (r: Option<Style>)
    ensures
        r == apply_item(item@, st),
{
    let n = item.len();
    if n == 8 && item[0] == 'm' && item[1] == 'o' && item[2] == 'd' && item[3] == '=' && item[4]
        == 'b' && item[5] == 'o' && item[6] == 'l' && item[7] == 'd' {
        proof {
            assert(item@ =~= item_mod_bold());
        }
        Some(Style { fg: st.fg, bg: st.bg, bold: true })
    } else if n == 9 && item[0] == 'f' && item[1] == 'g' && item[2] == '=' && item[3] == 'y'
        && item[4] == 'e' && item[5] == 'l' && item[6] == 'l' && item[7] == 'o' && item[8] == 'w' {
        proof {
            assert(item@ =~= item_fg_yellow());
        }
        Some(Style { fg: Color::Yellow, bg: st.bg, bold: st.bold })
    } else if n == 8 && item[0] == 'f' && item[1] == 'g' && item[2] == '=' && item[3] == 'g'
        && item[4] == 'r' && item[5] == 'e' && item[6] == 'e' && item[7] == 'n' {
        proof {
            assert(item@ =~= item_fg_green());
        }
        Some(Style { fg: Color::Green, bg: st.bg, bold: st.bold })
    } else if n == 10 && item[0] == 'f' && item[1] == 'g' && item[2] == '=' && item[3] == 'm'
        && item[4] == 'a' && item[5] == 'g' && item[6] == 'e' && item[7] == 'n' && item[8] == 't'
        && item[9] == 'a' {
        proof {
            assert(item@ =~= item_fg_magenta());
        }
        Some(Style { fg: Color::Magenta, bg: st.bg, bold: st.bold })
    } else if n == 8 && item[0] == 'f' && item[1] == 'g' && item[2] == '=' && item[3] == 'w'
        && item[4] == 'h' && item[5] == 'i' && item[6] == 't' && item[7] == 'e' {
        proof {
            assert(item@ =~= item_fg_white());
        }
        Some(Style { fg: Color::White, bg: st.bg, bold: st.bold })
    } else if n == 8 && item[0] == 'f' && item[1] == 'g' && item[2] == '=' && item[3] == 'b'
        && item[4] == 'l' && item[5] == 'a' && item[6] == 'c' && item[7] == 'k' {
        proof {
            assert(item@ =~= item_fg_black());
        }
        Some(Style { fg: Color::Black, bg: st.bg, bold: st.bold })
    } else {
        proof {
            assert(item@ != item_mod_bold());
            assert(item@ != item_fg_yellow());
            assert(item@ != item_fg_green());
            assert(item@ != item_fg_magenta());
            assert(item@ != item_fg_white());
            assert(item@ != item_fg_black());
        }
        None
    }
}

/// The style a tag buffer denotes, or `None` for an unknown tag.
fn tag_style(buf: &Vec<char>) -> (r: Option<Style>)
    ensures
        r == parse_tag(buf@),
{
    let mut st = Style::plain();
    let mut item: Vec<char> = Vec::new();
    let mut i: usize = 1;
    while i < buf.len()
        invariant
            1 <= i <= buf.len() || buf.len() == 0,
            parse_tag(buf@) == tag_items(buf@, i as int, item@, st),
        decreases buf.len() - i,
    {
        let c = buf[i];
        if c == ';' {
            match item_style(&item, st) {
                Some(st2) => {
                    st = st2;
                    item.clear();
                },
                None => {
                    return None;
                },
            }
        } else {
            item.push(c);
        }
        i = i + 1;
    }
    item_style(&item, st)
}

/// Parse a text into styled characters, treating unterminated or unknown
/// tags as literal text.
pub fn parse_spans(text: &Vec<char>) -> (out: Vec<SChar>)
    ensures
        out@ == spans_of(text@),
{
    let mut out: Vec<SChar> = Vec::new();
    let mut mode = Mode::Outside;
    let mut tagbuf: Vec<char> = Vec::new();
    let mut rawbuf: Vec<char> = Vec::new();
    let mut content: Vec<char> = Vec::new();
    let mut cur = Style::plain();
    let mut i: usize = 0;
    while i < text.len()
        invariant
            i <= text.len(),
            mode == Mode::Outside ==> spans_of(text@) == out@ + scan(
                text@,
                i as int,
                PState::Outside,
            ),
            mode == Mode::InTag ==> spans_of(text@) == out@ + scan(
                text@,
                i as int,
                PState::InTag(tagbuf@),
            ),
            mode == Mode::InSpan ==> spans_of(text@) == out@ + scan(
                text@,
                i as int,
                PState::InSpan(cur, rawbuf@, content@),
            ),
        decreases text.len() - i,
    {
        let c = text[i];
        let ghost out0 = out@;
        let ghost tag0 = tagbuf@;
        let ghost raw0 = rawbuf@;
        let ghost content0 = content@;
        let ghost cur0 = cur;
        match mode {
            Mode::Outside => {
                if c == '{' {
                    tagbuf.clear();
                    tagbuf.push('{');
                    mode = Mode::InTag;
                    proof {
                        assert(tagbuf@ =~= seq!['{']);
                    }
                } else {
                    out.push(SChar { ch: c, style: Style::plain() });
                    proof {
                        assert(out@ + scan(text@, i + 1, PState::Outside) =~= out0 + scan(
                            text@,
                            i as int,
                            PState::Outside,
                        ));
                    }
                }
            },
            Mode::InTag => {
                if c == ' ' {
                    match tag_style(&tagbuf) {
                        Some(st2) => {
                            cur = st2;
                            rawbuf.clear();
                            rawbuf.append(&mut tagbuf);
                            rawbuf.push(' ');
                            content.clear();
                            mode = Mode::InSpan;
                            proof {
                                assert(rawbuf@ =~= tag0.push(' '));
                                assert(content@ =~= Seq::<char>::empty());
                            }
                        },
                        None => {
                            push_lits(&mut out, &tagbuf);
                            out.push(SChar { ch: ' ', style: Style::plain() });
                            tagbuf.clear();
                            mode = Mode::Outside;
                            proof {
                                lemma_lits_push(tag0, ' ');
                                assert(out@ =~= out0 + lits(tag0.push(' ')));
                                assert(out@ + scan(text@, i + 1, PState::Outside) =~= out0 + scan(
                                    text@,
                                    i as int,
                                    PState::InTag(tag0),
                                ));
                            }
                        },
                    }
                } else if c == '}' {
                    push_lits(&mut out, &tagbuf);
                    out.push(SChar { ch: '}', style: Style::plain() });
                    tagbuf.clear();
                    mode = Mode::Outside;
                    proof {
                        lemma_lits_push(tag0, '}');
                        assert(out@ =~= out0 + lits(tag0.push('}')));
                        assert(out@ + scan(text@, i + 1, PState::Outside) =~= out0 + scan(
                            text@,
                            i as int,
                            PState::InTag(tag0),
                        ));
                    }
                } else {
                    tagbuf.push(c);
                }
            },
            Mode::InSpan => {
                if c == '}' {
                    push_styled(&mut out, &content, cur);
                    content.clear();
                    rawbuf.clear();
                    mode = Mode::Outside;
                    proof {
                        assert(out@ + scan(text@, i + 1, PState::Outside) =~= out0 + scan(
                            text@,
                            i as int,
                            PState::InSpan(cur0, raw0, content0),
                        ));
                    }
                } else {
                    rawbuf.push(c);
                    content.push(c);
                }
            },
        }
        i = i + 1;
    }
    match mode {
        Mode::Outside => {},
        Mode::InTag => {
            push_lits(&mut out, &tagbuf);
        },
        Mode::InSpan => {
            push_lits(&mut out, &rawbuf);
        },
    }
    proof {
        assert(out@ =~= spans_of(text@));
    }
    out
}

/// Literals of a pushed run split into the run's literals and one more.
proof fn lemma_lits_push(s: Seq<char>, c: char)
    ensures
        lits(s.push(c)) =~= lits(s) + seq![lit(c)],
{
}

} // verus!
