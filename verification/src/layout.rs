//! The layout pipeline over the rendered string: alignment directives, box
//! framing, horizontal and vertical centering, and the blank-line bounds it
//! reports to a scroll controller.
use vstd::prelude::*;
use crate::style::{StyleConfig, TerminalKind};
use crate::text::{
    append_chars, cat_lines, chars_of, count_leading_sp, esc_clean, esc_span, leading_sp_of,
    lemma_cat_lines_id, lemma_esc_clean_concat, lemma_find_char_none, lemma_find_char_witness,
    lemma_reset_seq, lemma_strip_no_esc, lemma_visible_concat, lines_of, lines_view, max_visible,
    max_visible_of, repeat_char, repeat_chars, reset_chars, reset_seq, seq_views, split_all,
    split_nl, string_of, strip, strip_chars, sub_chars, visible_count, visible_len, ESCAPE, STRIKE,
};

verus! {

/// An alignment token `$[c]$`, `$[l]$` or `$[r]$` starts at `i`.
pub open spec fn token_at(s: Seq<char>, i: int) -> bool {
    &&& 0 <= i
    &&& i + 5 <= s.len()
    &&& s[i] == '$'
    &&& s[i + 1] == '['
    &&& (s[i + 2] == 'c' || s[i + 2] == 'l' || s[i + 2] == 'r')
    &&& s[i + 3] == ']'
    &&& s[i + 4] == '$'
}

/// `s` with every alignment token removed.
pub open spec fn remove_tokens(s: Seq<char>) -> Seq<char>
    decreases s.len()
{
    if s.len() == 0 {
        Seq::empty()
    } else if token_at(s, 0) {
        remove_tokens(s.skip(5))
    } else {
        seq![s[0]] + remove_tokens(s.skip(1))
    }
}

/// The letter of the first alignment token of `s`, if any.
pub open spec fn first_align(s: Seq<char>) -> Option<char>
    decreases s.len()
{
    if s.len() == 0 {
        None
    } else if token_at(s, 0) {
        Some(s[2])
    } else {
        first_align(s.skip(1))
    }
}

/// A line that is exactly a thematic-break rule.
pub open spec fn is_rule_line(l: Seq<char>) -> bool {
    l == seq!['-', '-', '-'] || l == seq!['*', '*', '*'] || l == seq!['_', '_', '_']
}

/// One line after the directive-and-rule stage: rules become a full-width
/// dash line; a `c` token centers, an `r` token right-aligns, an `l` token is
/// only removed; a line without a token is untouched.
pub open spec fn stage_a_line(l: Seq<char>, longest: int) -> Seq<char> {
    if is_rule_line(l) {
        repeat_char('-', longest)
    } else {
        match first_align(l) {
            None => l,
            Some(a) => {
                let t = remove_tokens(l);
                let vt = visible_len(t);
                let room = if longest >= vt {
                    longest - vt
                } else {
                    0
                };
                if a == 'c' {
                    repeat_char(' ', room / 2) + t
                } else if a == 'r' {
                    repeat_char(' ', room) + t
                } else {
                    t
                }
            },
        }
    }
}

pub open spec fn stage_a_lines(ls: Seq<Seq<char>>, longest: int) -> Seq<char>
    decreases ls.len()
{
    if ls.len() == 0 {
        Seq::empty()
    } else {
        stage_a_lines(ls.drop_last(), longest) + stage_a_line(ls.last(), longest) + seq!['\n']
    }
}

/// The whole first stage, over the lines of `s` and its longest visible line.
pub open spec fn spec_align_custom(s: Seq<char>) -> Seq<char> {
    stage_a_lines(lines_view(s), max_visible(lines_view(s)))
}

/// Remove the alignment tokens of one line and report the first token's
/// letter.
fn scan_tokens(l: &Vec<char>) -> (r: (Vec<char>, Option<char>))
    ensures
        r.0@ == remove_tokens(l@),
        r.1 == first_align(l@),
{
    let n = l.len();
    let mut out: Vec<char> = Vec::new();
    let mut align: Option<char> = None;
    let mut i: usize = 0;
    proof {
        assert(l@.skip(0) =~= l@);
        assert(Seq::<char>::empty() + remove_tokens(l@) =~= remove_tokens(l@));
    }
    while i < n
        invariant
            i <= n,
            n == l@.len(),
            remove_tokens(l@) == out@ + remove_tokens(l@.skip(i as int)),
            first_align(l@) == (if align is Some {
                align
            } else {
                first_align(l@.skip(i as int))
            }),
        decreases n - i,
    {
        let ghost rest = l@.skip(i as int);
        let token_here = n >= 5 && i <= n - 5 && l[i] == '$' && l[i + 1] == '[' && (l[i + 2] == 'c'
            || l[i + 2] == 'l' || l[i + 2] == 'r') && l[i + 3] == ']' && l[i + 4] == '$';
        proof {
            assert(rest.len() == n - i);
            assert(forall|k: int| 0 <= k < rest.len() ==> rest[k] == l@[i + k]);
            assert(token_at(rest, 0) == token_here);
        }
        if token_here {
            if align.is_none() {
                align = Some(l[i + 2]);
            }
            proof {
                assert(rest.skip(5) =~= l@.skip(i + 5 as int));
            }
            i = i + 5;
        } else {
            let c = l[i];
            out.push(c);
            proof {
                assert(rest.skip(1) =~= l@.skip(i + 1 as int));
                assert(out@ + remove_tokens(l@.skip(i + 1 as int)) =~= remove_tokens(l@));
            }
            i = i + 1;
        }
    }
    proof {
        assert(l@.skip(n as int) =~= Seq::<char>::empty());
        assert(out@ =~= remove_tokens(l@));
    }
    (out, align)
}

/// Is `l` exactly a rule line?
fn is_rule(l: &Vec<char>) -> (r: bool)
    ensures
        r == is_rule_line(l@),
{
    if l.len() != 3 {
        proof {
            assert(!is_rule_line(l@));
        }
        return false;
    }
    let r = (l[0] == '-' && l[1] == '-' && l[2] == '-') || (l[0] == '*' && l[1] == '*' && l[2]
        == '*') || (l[0] == '_' && l[1] == '_' && l[2] == '_');
    proof {
        assert(l@ =~= seq![l@[0], l@[1], l@[2]]);
        if r {
            assert(is_rule_line(l@));
        } else {
            assert(l@ != seq!['-', '-', '-'] && l@ != seq!['*', '*', '*'] && l@ != seq![
                '_',
                '_',
                '_',
            ]);
        }
    }
    r
}

/// The directive-and-rule stage: scan each line for one `$[x]$` token and
/// align it against the longest visible line; replace bare `---`, `***` and
/// `___` lines by a full-width rule.
pub fn align_custom(prettified: String) -> (r: String)
    ensures
        r@ == spec_align_custom(prettified@),
{
    let chars = chars_of(prettified.as_str());
    let lines = lines_of(&chars);
    let longest = max_visible_of(&lines);
    let n = lines.len();
    let mut out: Vec<char> = Vec::new();
    let mut i: usize = 0;
    proof {
        assert(seq_views(lines@).take(0) =~= Seq::<Seq<char>>::empty());
    }
    while i < n
        invariant
            i <= n,
            n == lines@.len(),
            longest as int == max_visible(seq_views(lines@)),
            out@ == stage_a_lines(seq_views(lines@).take(i as int), longest as int),
        decreases n - i,
    {
        let line = &lines[i];
        let aligned: Vec<char> = if is_rule(line) {
            repeat_chars('-', longest)
        } else {
            let (t, align) = scan_tokens(line);
            match align {
                None => sub_chars(line, 0, line.len()),
                Some(a) => {
                    let vt = visible_count(&t);
                    let room: usize = if longest >= vt {
                        longest - vt
                    } else {
                        0
                    };
                    if a == 'c' {
                        let mut padded = repeat_chars(' ', room / 2);
                        append_chars(&mut padded, &t);
                        padded
                    } else if a == 'r' {
                        let mut padded = repeat_chars(' ', room);
                        append_chars(&mut padded, &t);
                        padded
                    } else {
                        t
                    }
                },
            }
        };
        proof {
            assert(lines@[i as int]@ =~= lines@[i as int]@.subrange(
                0,
                lines@[i as int]@.len() as int,
            ));
            assert(aligned@ == stage_a_line(seq_views(lines@)[i as int], longest as int));
        }
        append_chars(&mut out, &aligned);
        out.push('\n');
        proof {
            let vs = seq_views(lines@);
            assert(vs.take(i + 1 as int).drop_last() =~= vs.take(i as int));
            assert(vs.take(i + 1 as int).last() == vs[i as int]);
            assert(out@ =~= stage_a_lines(vs.take(i as int), longest as int) + stage_a_line(
                vs[i as int],
                longest as int,
            ) + seq!['\n']);
        }
        i += 1;
    }
    proof {
        assert(seq_views(lines@).take(n as int) =~= seq_views(lines@));
    }
    string_of(&out)
}

/// Law: the directive stage is a no-op on newline-terminated text whose lines
/// hold no alignment token and no bare rule, so applying it to its own output
/// of such text changes nothing further (idempotence).
pub proof fn lemma_align_custom_noop(s: Seq<char>)
    requires
        s.len() == 0 || s.last() == '\n',
        forall|i: int|
            0 <= i < lines_view(s).len() ==> first_align(#[trigger] lines_view(s)[i]) is None
                && !is_rule_line(lines_view(s)[i]),
    ensures
        spec_align_custom(s) == s,
{
    lemma_stage_a_lines_noop(lines_view(s), max_visible(lines_view(s)));
    lemma_cat_lines_id(s);
}

proof fn lemma_stage_a_lines_noop(ls: Seq<Seq<char>>, longest: int)
    requires
        forall|i: int|
            0 <= i < ls.len() ==> first_align(#[trigger] ls[i]) is None && !is_rule_line(ls[i]),
    ensures
        stage_a_lines(ls, longest) == cat_lines(ls),
    decreases ls.len(),
{
    if ls.len() > 0 {
        assert(forall|i: int|
            0 <= i < ls.drop_last().len() ==> ls.drop_last()[i] == #[trigger] ls[i]);
        lemma_stage_a_lines_noop(ls.drop_last(), longest);
        assert(ls.last() == ls[ls.len() - 1]);
        assert(stage_a_line(ls.last(), longest) == ls.last());
    }
}



/// A character sequence free of escapes and strike marks is wholly visible.
pub proof fn lemma_filter_all(s: Seq<char>)
    requires
        forall|i: int| 0 <= i < s.len() ==> s[i] != STRIKE,
    ensures
        s.filter(|c: char| c != STRIKE) == s,
    decreases s.len(),
{
    reveal_with_fuel(Seq::filter, 2);
    if s.len() == 0 {
        assert(s.filter(|c: char| c != STRIKE) =~= s);
    } else {
        lemma_filter_all(s.drop_last());
        assert(s.drop_last().push(s.last()) =~= s);
        assert(s.filter(|c: char| c != STRIKE) =~= s);
    }
}

pub proof fn lemma_visible_plain(s: Seq<char>)
    requires
        forall|i: int| 0 <= i < s.len() ==> s[i] != ESCAPE && s[i] != STRIKE,
    ensures
        crate::text::visible(s) == s,
        visible_len(s) == s.len(),
        esc_clean(s),
{
    lemma_strip_no_esc(s);
    lemma_filter_all(s);
}

pub proof fn lemma_visible_reset()
    ensures
        visible_len(reset_seq()) == 0,
        esc_clean(reset_seq()),
        strip(reset_seq()) == Seq::<char>::empty(),
{
    lemma_reset_seq();
    assert(Seq::<char>::empty().filter(|c: char| c != STRIKE) =~= Seq::<char>::empty());
}

// ---------------------------------------------------------------------------
// The per-line color map
// ---------------------------------------------------------------------------

/// The color code active at each line start, found by scanning the text.
pub struct ColorMap {
    /// Entry `i` is the last complete escape sequence before line `i`, or
    /// empty when none was seen yet.
    pub colors: Vec<Vec<char>>,
}

/// The last complete escape sequence of `l`, or `prev` when `l` has none.
pub open spec fn last_esc_in(l: Seq<char>, prev: Seq<char>) -> Seq<char>
    decreases l.len()
{
    if l.len() == 0 {
        prev
    } else {
        match esc_span(l) {
            Some(k) => if 2 <= k <= l.len() {
                last_esc_in(l.skip(k), l.take(k))
            } else {
                last_esc_in(l.skip(1), prev)
            },
            None => last_esc_in(l.skip(1), prev),
        }
    }
}

/// The color active at the start of line `i`: the last escape of the lines
/// before it.
pub open spec fn colors_upto(ls: Seq<Seq<char>>, i: int) -> Seq<char>
    decreases i when i >= 0
{
    if i <= 0 {
        Seq::empty()
    } else {
        last_esc_in(ls[i - 1], colors_upto(ls, i - 1))
    }
}

/// The whole color map of a line list.
pub open spec fn colors_all(ls: Seq<Seq<char>>) -> Seq<Seq<char>> {
    Seq::new(ls.len(), |i: int| colors_upto(ls, i))
}

/// The last complete escape sequence of one line, starting from `prev`.
fn last_esc_scan(l: &Vec<char>, prev: Vec<char>) -> (r: Vec<char>)
    ensures
        r@ == last_esc_in(l@, prev@),
{

    let n = l.len();
    let ghost prev0 = prev@;
    let mut cur = prev;
    let mut i: usize = 0;
    proof {
        assert(l@.skip(0) =~= l@);
    }
    while i < n
        invariant
            i <= n,
            n == l@.len(),
            last_esc_in(l@, prev0) == last_esc_in(l@.skip(i as int), cur@),
        decreases n - i,
    {
        let ghost rest = l@.skip(i as int);
        if l[i] == ESCAPE && i + 1 < n && l[i + 1] == '[' {
            let mut j: usize = i + 2;
            let mut found = false;
            while j < n && !found
                invariant
                    i + 2 <= j <= n,
                    n == l@.len(),
                    found ==> j < n && l@[j as int] == 'm',
                    forall|k: int| i + 2 <= k < j ==> l@[k] != 'm',
                decreases n - j, (if found { 0int } else { 1int }),
            {
                if l[j] == 'm' {
                    found = true;
                } else {
                    j += 1;
                }
            }
            if found {
                proof {
                    assert forall|k: int| 2 <= k < j - i implies rest[k] != 'm' by {
                        assert(rest[k] == l@[i + k]);
                    }
                    assert(rest[j - i] == l@[j as int]);
                    lemma_find_char_witness(rest, 'm', 2, j - i);
                    assert(esc_span(rest) == Some(j - i + 1));
                    assert(rest.skip(j - i + 1) =~= l@.skip(j + 1 as int));
                    assert(rest.take(j - i + 1) =~= l@.subrange(i as int, j + 1 as int));
                }
                cur = sub_chars(l, i, j + 1);
                i = j + 1;
            } else {
                proof {
                    assert forall|k: int| 2 <= k < rest.len() implies rest[k] != 'm' by {
                        assert(rest[k] == l@[i + k]);
                    }
                    lemma_find_char_none(rest, 'm', 2);
                    assert(esc_span(rest) is None);
                    assert(rest.skip(1) =~= l@.skip(i + 1 as int));
                }
                i += 1;
            }
        } else {
            proof {
                if rest.len() >= 2 && rest[0] == ESCAPE && rest[1] == '[' {
                    assert(l@[i + 1 as int] == '[');
                    assert(false);
                }
                assert(esc_span(rest) is None);
                assert(rest.skip(1) =~= l@.skip(i + 1 as int));
            }
            i += 1;
        }
    }
    proof {
        assert(l@.skip(n as int) =~= Seq::<char>::empty());
    }
    cur
}

/// Scan the lines for the color code active at each line's start.
pub fn store_colors(lines: &Vec<Vec<char>>) -> (r: ColorMap)
    ensures
        r.colors@.len() == lines@.len(),
        forall|j: int| 0 <= j < lines@.len() ==> r.colors@[j]@ == colors_upto(seq_views(lines@), j),
{
    let n = lines.len();
    let mut colors: Vec<Vec<char>> = Vec::new();
    let mut cur: Vec<char> = Vec::new();
    let mut i: usize = 0;
    while i < n
        invariant
            i <= n,
            n == lines@.len(),
            colors@.len() == i,
            cur@ == colors_upto(seq_views(lines@), i as int),
            forall|j: int| 0 <= j < i ==> colors@[j]@ == colors_upto(seq_views(lines@), j),
        decreases n - i,
    {
        let snapshot = sub_chars(&cur, 0, cur.len());
        proof {
            assert(snapshot@ =~= cur@);
        }
        colors.push(snapshot);
        cur = last_esc_scan(&lines[i], cur);
        proof {
            assert(seq_views(lines@)[i as int] == lines@[i as int]@);
        }
        i += 1;
    }
    ColorMap { colors }
}

// ---------------------------------------------------------------------------
// Box framing
// ---------------------------------------------------------------------------

/// The framing width never runs past this cap.
pub open spec fn width_cap() -> int {
    0xFFFF0000
}

pub proof fn lemma_count_leading_nonneg(s: Seq<char>)
    ensures
        count_leading_sp(s) >= 0,
    decreases s.len(),
{
    if s.len() > 0 && s[0] == ' ' {
        lemma_count_leading_nonneg(s.drop_first());
    }
}

/// One line's contribution to the framing width: its visible length plus its
/// leading spaces.
pub open spec fn box_entry(l: Seq<char>) -> int {
    let e = visible_len(l) + count_leading_sp(strip(l));
    if e > width_cap() {
        width_cap()
    } else {
        e
    }
}

/// The framing width of a line list.
pub open spec fn box_width_of(ls: Seq<Seq<char>>) -> int
    decreases ls.len()
{
    if ls.len() == 0 {
        0
    } else {
        let m = box_width_of(ls.drop_last());
        let e = box_entry(ls.last());
        if e > m {
            e
        } else {
            m
        }
    }
}

/// Law support: every line fits inside the framing width.
pub proof fn lemma_box_width_ge(ls: Seq<Seq<char>>, i: int)
    requires
        0 <= i < ls.len(),
        visible_len(ls[i]) + count_leading_sp(strip(ls[i])) <= width_cap(),
    ensures
        visible_len(ls[i]) <= box_width_of(ls),
        box_width_of(ls) >= 0,
    decreases ls.len(),
{
    lemma_count_leading_nonneg(strip(ls[i]));
    if ls.len() > 0 {
        if i < ls.len() - 1 {
            lemma_box_width_ge(ls.drop_last(), i);
            assert(ls.drop_last()[i] == ls[i]);
            assert(box_width_of(ls) >= box_width_of(ls.drop_last()));
        } else {
            lemma_box_width_nonneg(ls.drop_last());
        }
    }
}

pub proof fn lemma_box_width_nonneg(ls: Seq<Seq<char>>)
    ensures
        box_width_of(ls) >= 0,
    decreases ls.len(),
{
    if ls.len() > 0 {
        lemma_box_width_nonneg(ls.drop_last());
        lemma_count_leading_nonneg(strip(ls.last()));
    }
}

/// One framed content line, between vertical borders, with margins and
/// right padding, reset before and after the content.
pub open spec fn box_content_line(l: Seq<char>, w: int) -> Seq<char> {
    let pad = if w >= visible_len(l) {
        w - visible_len(l)
    } else {
        0
    };
    seq!['│', ' ', ' '] + reset_seq() + reset_seq() + l + reset_seq() + repeat_char(' ', pad)
        + seq![' ', ' ', '│']
}

pub open spec fn box_lines_cat(ls: Seq<Seq<char>>, w: int) -> Seq<char>
    decreases ls.len()
{
    if ls.len() == 0 {
        Seq::empty()
    } else {
        box_lines_cat(ls.drop_last(), w) + box_content_line(ls.last(), w) + seq!['\n']
    }
}

pub open spec fn box_border(w: int) -> Seq<char> {
    repeat_char('─', w + 4)
}

/// The framed text: top border, each raw newline-separated piece framed,
/// bottom border.
pub open spec fn spec_draw_box(s: Seq<char>) -> Seq<char> {
    let ls = split_nl(s);
    let w = box_width_of(ls);
    seq!['┌'] + box_border(w) + seq!['┐', '\n'] + box_lines_cat(ls, w) + seq!['└'] + box_border(w)
        + seq!['┘', '\n']
}

/// Law: with the framing width `w` of the content, every emitted line of the
/// box — borders included — has visible length exactly `w + 6`: the width of
/// `w + 4` horizontal rule characters flanked by the two corner or border
/// glyphs.
pub proof fn lemma_box_line_width(l: Seq<char>, w: int)
    requires
        esc_clean(l),
        visible_len(l) <= w,
    ensures
        visible_len(box_content_line(l, w)) == w + 6,
        visible_len(seq!['┌'] + box_border(w) + seq!['┐']) == w + 6,
        visible_len(seq!['└'] + box_border(w) + seq!['┘']) == w + 6,
{
    let margin = seq!['│', ' ', ' '];
    let close = seq![' ', ' ', '│'];
    let pad = repeat_char(' ', w - visible_len(l));
    lemma_visible_plain(margin);
    lemma_visible_plain(close);
    lemma_visible_plain(pad);
    lemma_visible_reset();
    let a1 = margin;
    let a2 = a1 + reset_seq();
    let a3 = a2 + reset_seq();
    let a4 = a3 + l;
    let a5 = a4 + reset_seq();
    let a6 = a5 + pad;
    let a7 = a6 + close;
    lemma_visible_concat(a1, reset_seq());
    lemma_esc_clean_concat(a1, reset_seq());
    lemma_visible_concat(a2, reset_seq());
    lemma_esc_clean_concat(a2, reset_seq());
    lemma_visible_concat(a3, l);
    lemma_esc_clean_concat(a3, l);
    lemma_visible_concat(a4, reset_seq());
    lemma_esc_clean_concat(a4, reset_seq());
    lemma_visible_concat(a5, pad);
    lemma_esc_clean_concat(a5, pad);
    lemma_visible_concat(a6, close);
    assert(box_content_line(l, w) =~= a7);
    let top = seq!['┌'] + box_border(w) + seq!['┐'];
    assert forall|i: int| 0 <= i < top.len() implies top[i] != ESCAPE && top[i] != STRIKE by {}
    lemma_visible_plain(top);
    let bot = seq!['└'] + box_border(w) + seq!['┘'];
    assert forall|i: int| 0 <= i < bot.len() implies bot[i] != ESCAPE && bot[i] != STRIKE by {}
    lemma_visible_plain(bot);
}

/// Frame the content in a box. The color map parameter mirrors the caller's
/// bookkeeping; the border resets colors outright, so its entries are not
/// consulted.
#[verifier::rlimit(100)]
pub fn draw_box(content: &str, line_color_map: &ColorMap) -> (r: String)
    ensures
        r@ == spec_draw_box(content@),
{
    let chars = chars_of(content);
    let pieces = split_all(&chars);
    let n = pieces.len();
    // the framing width
    let mut w: usize = 0;
    let mut i: usize = 0;
    proof {
        assert(seq_views(pieces@).take(0) =~= Seq::<Seq<char>>::empty());
    }
    while i < n
        invariant
            i <= n,
            n == pieces@.len(),
            w as int == box_width_of(seq_views(pieces@).take(i as int)),
            w <= 0xFFFF0000,
        decreases n - i,
    {
        let line = &pieces[i];
        let vl = visible_count(line);
        let stripped = strip_chars(line);
        let lead = leading_sp_of(&stripped);
        let entry: usize = if vl <= 0xFFFF0000 && lead <= 0xFFFF0000 - vl {
            vl + lead
        } else {
            0xFFFF0000
        };
        proof {
            let vs = seq_views(pieces@);
            assert(entry as int == box_entry(vs[i as int]));
            assert(vs.take(i + 1 as int).drop_last() =~= vs.take(i as int));
            assert(vs.take(i + 1 as int).last() == vs[i as int]);
        }
        if entry > w {
            w = entry;
        }
        i += 1;
    }
    proof {
        assert(seq_views(pieces@).take(n as int) =~= seq_views(pieces@));
    }
    let ghost wspec = box_width_of(seq_views(pieces@));
    // borders
    let mut out: Vec<char> = Vec::new();
    out.push('┌');
    let border = repeat_chars('─', w + 4);
    append_chars(&mut out, &border);
    out.push('┐');
    out.push('\n');
    let ghost top = seq!['┌'] + box_border(wspec) + seq!['┐', '\n'];
    proof {
        assert(out@ =~= top);
    }
    let mut i2: usize = 0;
    while i2 < n
        invariant
            i2 <= n,
            n == pieces@.len(),
            w as int == wspec,
            wspec == box_width_of(seq_views(pieces@)),
            top == seq!['┌'] + box_border(wspec) + seq!['┐', '\n'],
            out@ == top + box_lines_cat(seq_views(pieces@).take(i2 as int), wspec),
        decreases n - i2,
    {
        let line = &pieces[i2];
        let vl = visible_count(line);
        let pad: usize = if w >= vl {
            w - vl
        } else {
            0
        };
        out.push('│');
        out.push(' ');
        out.push(' ');
        let reset = reset_chars();
        append_chars(&mut out, &reset);
        append_chars(&mut out, &reset);
        append_chars(&mut out, line);
        append_chars(&mut out, &reset);
        let padding = repeat_chars(' ', pad);
        append_chars(&mut out, &padding);
        out.push(' ');
        out.push(' ');
        out.push('│');
        out.push('\n');
        proof {
            let vs = seq_views(pieces@);
            assert(vs.take(i2 + 1 as int).drop_last() =~= vs.take(i2 as int));
            assert(vs.take(i2 + 1 as int).last() == vs[i2 as int]);
            assert(out@ =~= top + box_lines_cat(vs.take(i2 as int), wspec) + box_content_line(
                vs[i2 as int],
                wspec,
            ) + seq!['\n']);
        }
        i2 += 1;
    }
    out.push('└');
    append_chars(&mut out, &border);
    out.push('┘');
    out.push('\n');
    proof {
        let vs = seq_views(pieces@);
        assert(vs.take(n as int) =~= vs);
        assert(out@ =~= spec_draw_box(content@));
    }
    string_of(&out)
}



// ---------------------------------------------------------------------------
// Horizontal centering
// ---------------------------------------------------------------------------

/// The color re-emitted before line `i`: the map's entry, or a reset when the
/// map has none.
pub open spec fn color_entry(colors: Seq<Seq<char>>, i: int) -> Seq<char> {
    if 0 <= i < colors.len() && colors[i].len() > 0 {
        colors[i]
    } else {
        reset_seq()
    }
}

pub open spec fn h_lines(ls: Seq<Seq<char>>, colors: Seq<Seq<char>>, pad: int) -> Seq<char>
    decreases ls.len()
{
    if ls.len() == 0 {
        Seq::empty()
    } else {
        h_lines(ls.drop_last(), colors, pad) + repeat_char(' ', pad) + color_entry(
            colors,
            ls.len() - 1,
        ) + ls.last() + reset_seq() + seq!['\n']
    }
}

/// Horizontal centering: when the flag is on and the width exceeds the
/// longest visible line, every line is pushed right by half the slack, its
/// start color re-emitted before it; otherwise the text is unchanged.
pub open spec fn spec_align_horizontal(
    s: Seq<char>,
    flag: bool,
    width: int,
    colors: Seq<Seq<char>>,
) -> Seq<char> {
    let ls = lines_view(s);
    let longest = max_visible(ls);
    let pad = if flag && width > longest {
        (width - longest) / 2
    } else {
        0
    };
    if pad > 0 {
        h_lines(ls, colors, pad)
    } else {
        s
    }
}

/// Center the content horizontally against `width` terminal columns.
pub fn align_horizontal(
    prettified: String,
    style_map: &StyleConfig,
    width: u16,
    line_color_map: ColorMap,
) -> (r: String)
    ensures
        r@ == spec_align_horizontal(
            prettified@,
            style_map.horizontal_alignment,
            width as int,
            seq_views(line_color_map.colors@),
        ),
{
    let chars = chars_of(prettified.as_str());
    let lines = lines_of(&chars);
    let longest = max_visible_of(&lines);
    let pad: usize = if style_map.horizontal_alignment && (width as usize) > longest {
        ((width as usize) - longest) / 2
    } else {
        0
    };
    if pad == 0 {
        return prettified;
    }
    let n = lines.len();
    let mut out: Vec<char> = Vec::new();
    let mut i: usize = 0;
    proof {
        assert(seq_views(lines@).take(0) =~= Seq::<Seq<char>>::empty());
    }
    while i < n
        invariant
            i <= n,
            n == lines@.len(),
            pad > 0,
            out@ == h_lines(
                seq_views(lines@).take(i as int),
                seq_views(line_color_map.colors@),
                pad as int,
            ),
        decreases n - i,
    {
        let spaces = repeat_chars(' ', pad);
        append_chars(&mut out, &spaces);
        let color: Vec<char> = if i < line_color_map.colors.len() && line_color_map.colors[i].len()
            > 0 {
            sub_chars(&line_color_map.colors[i], 0, line_color_map.colors[i].len())
        } else {
            reset_chars()
        };
        proof {
            assert(color@ =~= color_entry(seq_views(line_color_map.colors@), i as int));
        }
        append_chars(&mut out, &color);
        append_chars(&mut out, &lines[i]);
        let reset = reset_chars();
        append_chars(&mut out, &reset);
        out.push('\n');
        proof {
            let vs = seq_views(lines@);
            assert(vs.take(i + 1 as int).drop_last() =~= vs.take(i as int));
            assert(vs.take(i + 1 as int).last() == vs[i as int]);
            assert(out@ =~= h_lines(vs.take(i as int), seq_views(line_color_map.colors@), pad as int)
                + repeat_char(' ', pad as int) + color_entry(
                seq_views(line_color_map.colors@),
                i as int,
            ) + vs[i as int] + reset_seq() + seq!['\n']);
        }
        i += 1;
    }
    proof {
        assert(seq_views(lines@).take(n as int) =~= seq_views(lines@));
    }
    string_of(&out)
}

// ---------------------------------------------------------------------------
// Vertical centering
// ---------------------------------------------------------------------------

/// The blank-line count of vertical centering.
pub open spec fn spec_vblank(flag: bool, height: int, nlines: int) -> int {
    if flag && height > nlines {
        (height - nlines) / 2
    } else {
        0
    }
}

/// Vertical centering. The default profile prepends the blank count (at
/// least one line) and appends one line. The "warp" profile, whose host
/// terminal reserves its own padding, adds two fewer blank lines than the
/// count to both ends when the count exceeds two, and nothing otherwise.
pub open spec fn spec_align_vertical(
    s: Seq<char>,
    flag: bool,
    height: int,
    term: TerminalKind,
) -> Seq<char> {
    let blank = spec_vblank(flag, height, lines_view(s).len() as int);
    match term {
        TerminalKind::Warp => if blank > 2 {
            repeat_char('\n', blank - 2) + s + repeat_char('\n', blank - 2)
        } else {
            s
        },
        TerminalKind::Default => repeat_char(
            '\n',
            if blank > 2 {
                blank
            } else {
                1
            },
        ) + s + seq!['\n'],
    }
}

/// What the warp profile adds to each bound.
pub open spec fn spec_vbound_add(flag: bool, height: int, nlines: int, term: TerminalKind) -> int {
    match term {
        TerminalKind::Warp => spec_vblank(flag, height, nlines),
        TerminalKind::Default => 0,
    }
}

/// Center the content vertically against `height` terminal rows, recording
/// the added padding in the bounds.
pub fn align_vertical(
    prettified: String,
    style_map: &StyleConfig,
    height: u16,
    upper_bound: &mut u32,
    lower_bound: &mut u32,
) -> (r: String)
    requires
        *old(upper_bound) <= u32::MAX - 32768,
        *old(lower_bound) <= u32::MAX - 32768,
    ensures
        r@ == spec_align_vertical(
            prettified@,
            style_map.vertical_alignment,
            height as int,
            style_map.terminal,
        ),
        *final(upper_bound) == *old(upper_bound) + spec_vbound_add(
            style_map.vertical_alignment,
            height as int,
            lines_view(prettified@).len() as int,
            style_map.terminal,
        ),
        *final(lower_bound) == *old(lower_bound) + spec_vbound_add(
            style_map.vertical_alignment,
            height as int,
            lines_view(prettified@).len() as int,
            style_map.terminal,
        ),
{
    let chars = chars_of(prettified.as_str());
    let lines = lines_of(&chars);
    let nlines = lines.len();
    let blank: usize = if style_map.vertical_alignment && (height as usize) > nlines {
        ((height as usize) - nlines) / 2
    } else {
        0
    };
    proof {
        assert(blank as int == spec_vblank(
            style_map.vertical_alignment,
            height as int,
            lines_view(prettified@).len() as int,
        ));
        assert(blank <= 32767);
    }
    match style_map.terminal {
        TerminalKind::Warp => {
            *upper_bound = *upper_bound + (blank as u32);
            *lower_bound = *lower_bound + (blank as u32);
            if blank > 2 {
                let pad = repeat_chars('\n', blank - 2);
                let mut out = sub_chars(&pad, 0, pad.len());
                append_chars(&mut out, &chars);
                append_chars(&mut out, &pad);
                proof {
                    assert(pad@ =~= repeat_char('\n', blank - 2 as int));
                    assert(out@ =~= repeat_char('\n', blank - 2 as int) + prettified@
                        + repeat_char('\n', blank - 2 as int));
                }
                string_of(&out)
            } else {
                prettified
            }
        },
        TerminalKind::Default => {
            let count: usize = if blank > 2 {
                blank
            } else {
                1
            };
            let mut out = repeat_chars('\n', count);
            append_chars(&mut out, &chars);
            out.push('\n');
            proof {
                assert(out@ =~= repeat_char('\n', count as int) + prettified@ + seq!['\n']);
            }
            string_of(&out)
        },
    }
}

// ---------------------------------------------------------------------------
// The whole pipeline and its bounds
// ---------------------------------------------------------------------------

/// The blank-line padding recorded for one render cycle, read by an external
/// scroll controller. Valid until the next render overwrites it.
pub struct Bounds {
    pub upper: u32,
    pub lower: u32,
}

/// Read the recorded padding as a pair.
pub fn get_bounds(bounds: &Bounds) -> (r: (u32, u32))
    ensures
        r.0 == bounds.upper,
        r.1 == bounds.lower,
{
    (bounds.upper, bounds.lower)
}

/// A line count as the bounds counter holds it.
pub open spec fn capped_count(n: int) -> int {
    if n > 0xFFFF0000 {
        0xFFFF0000
    } else {
        n
    }
}

/// The text after the directive stage and optional box framing.
pub open spec fn spec_stage_b(s: Seq<char>, boxed: bool) -> Seq<char> {
    if boxed {
        spec_draw_box(spec_align_custom(s))
    } else {
        spec_align_custom(s)
    }
}

/// The text after the optional horizontal centering, whose color map is
/// rescanned from the framed text.
pub open spec fn spec_stage_c(s: Seq<char>, cfg: StyleConfig, width: int) -> Seq<char> {
    let s2 = spec_stage_b(s, cfg.boxed);
    if cfg.horizontal_alignment {
        spec_align_horizontal(s2, true, width, colors_all(lines_view(s2)))
    } else {
        s2
    }
}

/// The final text of the layout pipeline: the four stages in order, then one
/// trailing newline.
pub open spec fn spec_align_content(s: Seq<char>, cfg: StyleConfig, width: int, height: int) -> Seq<
    char,
> {
    let s3 = spec_stage_c(s, cfg, width);
    let s4 = if cfg.vertical_alignment {
        spec_align_vertical(s3, true, height, cfg.terminal)
    } else {
        s3
    };
    s4 + seq!['\n']
}

/// The reported upper bound: the pre-layout line count, plus four when the
/// box is drawn, plus the warp profile's padding.
pub open spec fn spec_upper_bound(s: Seq<char>, cfg: StyleConfig, width: int, height: int) -> int {
    capped_count(lines_view(s).len() as int) + (if cfg.boxed {
        4int
    } else {
        0int
    }) + (if cfg.vertical_alignment {
        spec_vbound_add(
            true,
            height,
            lines_view(spec_stage_c(s, cfg, width)).len() as int,
            cfg.terminal,
        )
    } else {
        0int
    })
}

/// The reported lower bound: only the warp profile's padding.
pub open spec fn spec_lower_bound(s: Seq<char>, cfg: StyleConfig, width: int, height: int) -> int {
    if cfg.vertical_alignment {
        spec_vbound_add(
            true,
            height,
            lines_view(spec_stage_c(s, cfg, width)).len() as int,
            cfg.terminal,
        )
    } else {
        0int
    }
}

/// Run the layout stages in order — directives, box, horizontal, vertical —
/// against the terminal geometry, and report the padding bounds.
pub fn align_content(prettified: String, style_map: &StyleConfig, width: u16, height: u16) -> (r: (
    String,
    Bounds,
))
    ensures
        r.0@ == spec_align_content(prettified@, *style_map, width as int, height as int),
        r.1.upper as int == spec_upper_bound(prettified@, *style_map, width as int, height as int),
        r.1.lower as int == spec_lower_bound(prettified@, *style_map, width as int, height as int),
{
    let chars = chars_of(prettified.as_str());
    let lines = lines_of(&chars);
    let nlines = lines.len();
    let mut upper: u32 = if nlines > 0xFFFF0000usize {
        0xFFFF0000u32
    } else {
        nlines as u32
    };
    let mut lower: u32 = 0;
    let color_map = store_colors(&lines);

    let mut text = align_custom(prettified);

    if style_map.boxed {
        upper = upper + 4;
        text = draw_box(text.as_str(), &color_map);
    }
    proof {
        assert(text@ == spec_stage_b(prettified@, style_map.boxed));
    }

    if style_map.horizontal_alignment {
        let chars2 = chars_of(text.as_str());
        let lines2 = lines_of(&chars2);
        let color_map2 = store_colors(&lines2);
        proof {
            assert(seq_views(color_map2.colors@) =~= colors_all(lines_view(text@)));
        }
        text = align_horizontal(text, style_map, width, color_map2);
    }
    proof {
        assert(text@ == spec_stage_c(prettified@, *style_map, width as int));
    }

    if style_map.vertical_alignment {
        text = align_vertical(text, style_map, height, &mut upper, &mut lower);
    }

    let mut out = chars_of(text.as_str());
    out.push('\n');
    let text = string_of(&out);
    (text, Bounds { upper, lower })
}

/// What the layout pipeline was fed for the given document: empty for an
/// unsupported root, and the renderer's exactly specified output for the
/// shapes its contracts pin (the document renders at depth zero). A `Root`
/// document feeds the pipeline its children's pieces, joined in order, plus
/// one trailing newline.
pub open spec fn rendered_doc(doc: crate::node::Node, t: Seq<char>, cfg: StyleConfig) -> bool {
    &&& (doc matches crate::node::Node::Other ==> t == Seq::<char>::empty())
    &&& (doc matches crate::node::Node::Root { children } ==> exists|inner: Seq<char>|
        #[trigger] crate::render::joined_parts(
            children@,
            inner,
            crate::render::Decor::Plain,
            0,
            cfg.syntax_highlighting,
        ) && t == inner + seq!['\n'])
    &&& (doc matches crate::node::Node::Text { value } ==> t == crate::mark::strike_sub(value@))
    &&& (doc matches crate::node::Node::ThematicBreak ==> t == seq!['\n', '-', '-', '-', '\n'])
    &&& (doc matches crate::node::Node::InlineCode { value } ==> strip(t) == value@ && esc_clean(t))
    &&& (doc matches crate::node::Node::Paragraph { children } ==> (crate::render::lone_text(
        children@,
    ) ==> t == seq!['\n'] + crate::render::lone_text_value(children@) + seq!['\n']))
    &&& (doc matches crate::node::Node::Heading { level, children } ==> (!(1 <= level <= 6)
        ==> exists|inner: Seq<char>|
        #[trigger] crate::render::joined_parts(
            children@,
            inner,
            crate::render::Decor::Plain,
            0,
            cfg.syntax_highlighting,
        ) && t == seq!['\n'] + inner + seq!['\n']))
    &&& (doc matches crate::node::Node::Heading { level, children } ==> (1 <= level <= 6
        ==> exists|inner: Seq<char>|
        #[trigger] crate::render::joined_parts(
            children@,
            inner,
            crate::render::Decor::Plain,
            0,
            cfg.syntax_highlighting,
        ) && (esc_clean(inner) ==> strip(t) == seq!['\n'] + repeat_char('█', level as int)
            + seq![' '] + strip(inner) + seq!['\n'] && esc_clean(t))))
    &&& (doc matches crate::node::Node::Heading { level, children } ==> (1 <= level <= 6
        && crate::render::lone_text(children@) ==> strip(t) == seq!['\n'] + repeat_char(
        '█',
        level as int,
    ) + seq![' '] + crate::render::lone_text_value(children@) + seq!['\n'] && esc_clean(t)))
    &&& (doc matches crate::node::Node::Link { url, children } ==> (crate::render::lone_text(
        children@,
    ) ==> strip(t) == crate::render::lone_text_value(children@) + (if crate::mark::has_http(url@) {
        seq![' ', ':', '('] + url@ + seq![')']
    } else {
        Seq::<char>::empty()
    }) && esc_clean(t)))
    &&& (doc matches crate::node::Node::FencedCode { lang, value } ==> strip(t) == seq!['\n'] + (
    if cfg.syntax_highlighting {
        crate::highlight::expand_tabs(value@)
    } else {
        value@
    }) + seq!['\n', '\n'] && esc_clean(t))
    &&& (doc matches crate::node::Node::List { ordered, start, items } ==> (
    crate::render::simple_items(items@) ==> strip(t) == seq!['\n'] + crate::render::list_body(
        items@,
        ordered,
        0,
        crate::node::list_start(start),
    ) + seq!['\n'] && esc_clean(t)))
}

/// Render a document tree and lay it out against the terminal geometry: the
/// single entry point of one render cycle. The returned bounds belong to this
/// cycle alone. The result is the layout pipeline applied to the rendered
/// document, which `rendered_doc` ties to the tree.
pub fn prettify(doc: &crate::node::Node, style_map: &StyleConfig, width: u16, height: u16) -> (r: (
    String,
    Bounds,
))
    requires
        crate::node::node_wf(*doc),
        crate::node::node_height(*doc) <= crate::render::MAX_DEPTH,
    ensures
        exists|t: Seq<char>|
            {
                &&& r.0@ == spec_align_content(t, *style_map, width as int, height as int)
                &&& r.1.upper as int == spec_upper_bound(t, *style_map, width as int, height as int)
                &&& r.1.lower as int == spec_lower_bound(t, *style_map, width as int, height as int)
                &&& #[trigger] rendered_doc(*doc, t, *style_map)
            },
{
    let rendered: String = match crate::render::render_node(doc, 0, style_map) {
        Some(v) => string_of(&v),
        None => String::new(),
    };
    let ghost t = rendered@;
    let (text, bounds) = align_content(rendered, style_map, width, height);
    proof {
        assert({
            &&& text@ == spec_align_content(t, *style_map, width as int, height as int)
            &&& bounds.upper as int == spec_upper_bound(t, *style_map, width as int, height as int)
            &&& bounds.lower as int == spec_lower_bound(t, *style_map, width as int, height as int)
            &&& rendered_doc(*doc, t, *style_map)
        });
    }
    (text, bounds)
}

} // verus!
