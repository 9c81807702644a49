//! The tree renderer: a recursive, style-aware visitor from document nodes to
//! one ANSI-decorated string.
use vstd::prelude::*;
use vstd::string::StringExecFns;
use crate::mark::{
    dec_rep, has_http, lemma_dec_rep_plain, lemma_strike_sub_id, lemma_strike_sub_no_esc,
    strike_sub, contains_http, strike_apply, u32_digits,
};
use crate::node::{
    items_height, items_wf, lemma_items_height_ge, lemma_items_wf_index, lemma_nodes_height_ge,
    lemma_nodes_wf_index, list_start, node_height, node_wf, nodes_height, nodes_wf, ListItem, Node,
};
use crate::paint::{paint, paint_bold, paint_cell, paint_inverse, paint_italic};
use crate::style::StyleConfig;
use crate::text::{
    append_chars, chars_of, esc_clean, lemma_esc_clean_concat, lemma_strip_concat,
    lemma_strip_no_esc, repeat_char, repeat_chars, string_of, strip,
};
use crate::highlight::{expand_tabs, syntax_highlighter};
use crate::mark::has_strike_span;

verus! {

/// Deepest nesting the renderer accepts: indentation columns stay far below
/// any machine limit.
pub const MAX_DEPTH: usize = 268435456;

/// How each child's text is decorated before joining.
pub enum Decor {
    Plain,
    Italic,
    Bold,
}

/// The bullet glyph for an unordered list, cycling with the depth.
pub open spec fn bullet_glyph(depth: int) -> char {
    if depth % 4 == 0 {
        '•'
    } else if depth % 4 == 1 {
        '·'
    } else if depth % 4 == 2 {
        '*'
    } else {
        '-'
    }
}

/// The visible bullet text of one list item.
pub open spec fn bullet_mark(ordered: bool, depth: int, num: int) -> Seq<char> {
    if ordered {
        seq![' '] + dec_rep(num) + seq!['.', ' ']
    } else {
        seq![' ', bullet_glyph(depth), ' ']
    }
}

/// An item whose sole child is a paragraph of one plain text node.
pub open spec fn simple_item(it: ListItem) -> bool {
    &&& it.children@.len() == 1
    &&& match it.children@[0] {
        Node::Paragraph { children } => {
            &&& children@.len() == 1
            &&& match children@[0] {
                Node::Text { value } => !has_strike_span(value@),
                _ => false,
            }
        },
        _ => false,
    }
}

/// The text of a simple item.
pub open spec fn item_value(it: ListItem) -> Seq<char> {
    match it.children@[0] {
        Node::Paragraph { children } => match children@[0] {
            Node::Text { value } => value@,
            _ => Seq::empty(),
        },
        _ => Seq::empty(),
    }
}

pub open spec fn simple_items(items: Seq<ListItem>) -> bool {
    forall|i: int| 0 <= i < items.len() ==> simple_item(#[trigger] items[i])
}

/// The visible text of a list of simple items, numbered from `num`.
pub open spec fn list_body(items: Seq<ListItem>, ordered: bool, depth: int, num: int) -> Seq<char>
    decreases items.len()
{
    if items.len() == 0 {
        Seq::empty()
    } else {
        repeat_char(' ', 2 * depth) + bullet_mark(ordered, depth, num) + item_value(items[0])
            + seq!['\n'] + list_body(items.drop_first(), ordered, depth, num + 1)
    }
}

/// One more simple item extends the body by one line.
proof fn lemma_list_body_step(items: Seq<ListItem>, i: int, ordered: bool, depth: int, num: int)
    requires
        0 <= i < items.len(),
    ensures
        list_body(items.take(i + 1), ordered, depth, num) == list_body(
            items.take(i),
            ordered,
            depth,
            num,
        ) + (repeat_char(' ', 2 * depth) + bullet_mark(ordered, depth, num + i) + item_value(
            items[i],
        ) + seq!['\n']),
    decreases i,
{
    let line_i = repeat_char(' ', 2 * depth) + bullet_mark(ordered, depth, num + i) + item_value(
        items[i],
    ) + seq!['\n'];
    if i == 0 {
        let t1 = items.take(1);
        assert(items.take(0) =~= Seq::<ListItem>::empty());
        assert(t1.drop_first() =~= Seq::<ListItem>::empty());
        assert(t1[0] == items[0]);
        assert(list_body(Seq::<ListItem>::empty(), ordered, depth, num) == Seq::<char>::empty());
        assert(list_body(t1, ordered, depth, num) == repeat_char(' ', 2 * depth) + bullet_mark(
            ordered,
            depth,
            num,
        ) + item_value(items[0]) + seq!['\n'] + list_body(t1.drop_first(), ordered, depth, num + 1));
        assert(list_body(t1, ordered, depth, num) =~= line_i);
        assert(list_body(items.take(0), ordered, depth, num) + line_i =~= line_i);
    } else {
        let t = items.drop_first();
        lemma_list_body_step(t, i - 1, ordered, depth, num + 1);
        assert(t[i - 1] == items[i]);
        assert(items.take(i + 1).drop_first() =~= t.take(i));
        assert(items.take(i).drop_first() =~= t.take(i - 1));
        assert(items.take(i + 1)[0] == items[0]);
        assert(items.take(i)[0] == items[0]);
        let head = repeat_char(' ', 2 * depth) + bullet_mark(ordered, depth, num) + item_value(
            items[0],
        ) + seq!['\n'];
        assert(list_body(items.take(i + 1), ordered, depth, num) == head + list_body(
            t.take(i),
            ordered,
            depth,
            num + 1,
        ));
        assert(list_body(items.take(i), ordered, depth, num) == head + list_body(
            t.take(i - 1),
            ordered,
            depth,
            num + 1,
        ));
        assert(head + (list_body(t.take(i - 1), ordered, depth, num + 1) + line_i) =~= (head
            + list_body(t.take(i - 1), ordered, depth, num + 1)) + line_i);
    }
}

/// A single plain text child without a strikethrough span.
pub open spec fn lone_text(children: Seq<Node>) -> bool {
    &&& children.len() == 1
    &&& match children[0] {
        Node::Text { value } => !has_strike_span(value@),
        _ => false,
    }
}

/// The value of that child.
pub open spec fn lone_text_value(children: Seq<Node>) -> Seq<char> {
    match children[0] {
        Node::Text { value } => value@,
        _ => Seq::empty(),
    }
}

/// The in-order concatenation of a list of pieces.
pub open spec fn concat_all(parts: Seq<Seq<char>>) -> Seq<char>
    decreases parts.len()
{
    if parts.len() == 0 {
        Seq::empty()
    } else {
        concat_all(parts.drop_last()) + parts.last()
    }
}

/// What one child of a joined list contributes, rendered at `depth` with the
/// highlighting flag `hl`: nothing for an unsupported kind, and for each kind
/// the renderer pins, the same visible text — exact bytes where the rendering
/// is unstyled and the joining is plain.
pub open spec fn child_part(child: Node, part: Seq<char>, decor: Decor, depth: int, hl: bool) -> bool {
    &&& (child matches Node::Other ==> part == Seq::<char>::empty())
    &&& (child matches Node::Text { value } ==> strip(part) == strike_sub(value@) && esc_clean(
    part,
    ) && (decor is Plain ==> part == strike_sub(value@)))
    &&& (child matches Node::ThematicBreak ==> strip(part) == seq!['\n', '-', '-', '-', '\n']
        && esc_clean(part) && (decor is Plain ==> part == seq!['\n', '-', '-', '-', '\n']))
    &&& (child matches Node::InlineCode { value } ==> strip(part) == value@ && esc_clean(part))
    &&& (child matches Node::FencedCode { lang, value } ==> strip(part) == seq!['\n'] + (if hl {
        expand_tabs(value@)
    } else {
        value@
    }) + seq!['\n', '\n'] && esc_clean(part))
    &&& (child matches Node::Paragraph { children } ==> (lone_text(children@) ==> strip(part)
        == seq!['\n'] + repeat_char(' ', depth) + lone_text_value(children@) + seq!['\n']
        && esc_clean(part)))
    &&& (child matches Node::Heading { level, children } ==> (!(1 <= level <= 6) && lone_text(
        children@,
    ) ==> strip(part) == seq!['\n'] + lone_text_value(children@) + seq!['\n'] && esc_clean(part)))
    &&& (child matches Node::Heading { level, children } ==> (1 <= level <= 6 && lone_text(
        children@,
    ) ==> strip(part) == seq!['\n'] + repeat_char('█', level as int) + seq![' ']
        + lone_text_value(children@) + seq!['\n'] && esc_clean(part)))
    &&& (child matches Node::Link { url, children } ==> (lone_text(children@) ==> strip(part)
        == lone_text_value(children@) + (if has_http(url@) {
        seq![' ', ':', '('] + url@ + seq![')']
    } else {
        Seq::<char>::empty()
    }) && esc_clean(part)))
    &&& (child matches Node::Emphasis { children } ==> (lone_text(children@) ==> strip(part)
        == lone_text_value(children@) && esc_clean(part)))
    &&& (child matches Node::Strong { children } ==> (lone_text(children@) ==> strip(part)
        == lone_text_value(children@) && esc_clean(part)))
    &&& (child matches Node::BlockQuote { children } ==> (children@.len() == 1 ==> (
    children@[0] matches Node::Paragraph { children: pc } ==> (lone_text(pc@) ==> strip(part)
        == seq!['\n'] + repeat_char(' ', depth + 1) + lone_text_value(pc@) + seq!['\n', '\n']
        && esc_clean(part)))))
    &&& (child matches Node::List { ordered, start, items } ==> (simple_items(items@) ==> strip(
        part,
    ) == seq!['\n'] + list_body(items@, ordered, depth, list_start(start)) + seq!['\n']
        && esc_clean(part)))
}

/// `joined` is the in-order concatenation of one piece per child, each piece
/// related to its child by `child_part`.
pub open spec fn joined_parts(
    children: Seq<Node>,
    joined: Seq<char>,
    decor: Decor,
    depth: int,
    hl: bool,
) -> bool {
    exists|parts: Seq<Seq<char>>|
        {
            &&& parts.len() == children.len()
            &&& joined == #[trigger] concat_all(parts)
            &&& forall|i: int|
                0 <= i < parts.len() ==> child_part(children[i], #[trigger] parts[i], decor, depth, hl)
        }
}

/// Join the renderings of `children`, each decorated according to `decor`:
/// the result is the in-order concatenation of one piece per child, a child
/// without output contributing nothing.
#[verifier::rlimit(100)]
pub fn render_children(children: &Vec<Node>, depth: usize, cfg: &StyleConfig, decor: Decor) -> (r:
    Vec<char>)
    requires
        nodes_wf(children@),
        depth + nodes_height(children@) <= MAX_DEPTH,
    ensures
        joined_parts(children@, r@, decor, depth as int, cfg.syntax_highlighting),
        decor is Plain && children@.len() == 1 ==> (children@[0] matches Node::Text { value }
            ==> r@ == strike_sub(value@)),
        children@.len() == 1 ==> (children@[0] matches Node::Text { value } ==> strip(r@)
            == strike_sub(value@) && esc_clean(r@)),
        children@.len() == 1 ==> (children@[0] matches Node::Paragraph { children: pc } ==> (
        lone_text(pc@) ==> strip(r@) == seq!['\n'] + repeat_char(' ', depth as int)
            + lone_text_value(pc@) + seq!['\n'] && esc_clean(r@))),
    decreases nodes_height(children@), 1int,
{
    let n = children.len();
    let mut out: Vec<char> = Vec::new();
    let ghost mut parts: Seq<Seq<char>> = Seq::empty();
    let mut i: usize = 0;
    proof {
        assert(esc_clean(out@));
        assert(strip(out@) =~= Seq::<char>::empty());
    }
    while i < n
        invariant
            i <= n,
            n == children@.len(),
            nodes_wf(children@),
            depth + nodes_height(children@) <= MAX_DEPTH,
            parts.len() == i as int,
            out@ == concat_all(parts),
            forall|k: int|
                0 <= k < i ==> child_part(
                    children@[k],
                    #[trigger] parts[k],
                    decor,
                    depth as int,
                    cfg.syntax_highlighting,
                ),
        decreases n - i,
    {
        proof {
            lemma_nodes_wf_index(children@, i as int);
            lemma_nodes_height_ge(children@, i as int);
        }
        let rendered = render_node(&children[i], depth, cfg);
        let piece: Vec<char> = match rendered {
            Some(text) => {
                proof {
                    match children@[i as int] {
                        Node::Text { value } => {
                            lemma_strike_sub_no_esc(value@);
                            lemma_strip_no_esc(text@);
                        },
                        Node::ThematicBreak => {
                            lemma_strip_no_esc(text@);
                        },
                        _ => {},
                    }
                }
                match decor {
                    Decor::Plain => text,
                    Decor::Italic => {
                        let s = string_of(&text);
                        let styled = paint_italic(s.as_str());
                        chars_of(styled.as_str())
                    },
                    Decor::Bold => {
                        let s = string_of(&text);
                        let styled = paint_bold(s.as_str());
                        chars_of(styled.as_str())
                    },
                }
            },
            None => {
                proof {
                    match children@[i as int] {
                        Node::Text { .. } => {
                            assert(false);
                        },
                        Node::ThematicBreak => {
                            assert(false);
                        },
                        _ => {},
                    }
                }
                Vec::new()
            },
        };
        append_chars(&mut out, &piece);
        proof {
            let prev = parts;
            parts = parts.push(piece@);
            assert(parts.drop_last() =~= prev);
            assert(parts.last() == piece@);
            assert(out@ == concat_all(parts));
            assert(child_part(
                children@[i as int],
                piece@,
                decor,
                depth as int,
                cfg.syntax_highlighting,
            ));
            assert forall|k: int| 0 <= k < i + 1 implies child_part(
                children@[k],
                #[trigger] parts[k],
                decor,
                depth as int,
                cfg.syntax_highlighting,
            ) by {
                if k < i {
                    assert(parts[k] == prev[k]);
                }
            }
        }
        i += 1;
    }
    proof {
        if n == 1 {
            assert(parts.drop_last() =~= Seq::<Seq<char>>::empty());
            assert(concat_all(Seq::<Seq<char>>::empty()) == Seq::<char>::empty());
            assert(parts.last() == parts[0]);
            assert(Seq::<char>::empty() + parts[0] =~= parts[0]);
            assert(concat_all(parts) == parts[0]);
            assert(child_part(children@[0], parts[0], decor, depth as int, cfg.syntax_highlighting));
        }
    }
    out
}

/// Render one node, or nothing for a kind outside the supported set.
#[verifier::rlimit(100)]
pub fn render_node(node: &Node, depth: usize, cfg: &StyleConfig) -> (r: Option<Vec<char>>)
    requires
        node_wf(*node),
        depth + node_height(*node) <= MAX_DEPTH,
    ensures
        r is Some <==> !(node matches Node::Other),
        node matches Node::Text { value } ==> (r matches Some(v) && v@ == strike_sub(value@)
            && strip(v@) == strike_sub(value@) && esc_clean(v@)),
        node matches Node::ThematicBreak ==> (r matches Some(v) && v@ == seq![
            '\n',
            '-',
            '-',
            '-',
            '\n',
        ] && strip(v@) == v@ && esc_clean(v@)),
        node matches Node::InlineCode { value } ==> (r matches Some(v) && strip(v@) == value@
            && esc_clean(v@)),
        node matches Node::Root { children } ==> (r matches Some(v) && exists|inner: Seq<char>|
            #[trigger] joined_parts(children@, inner, Decor::Plain, depth as int, cfg.syntax_highlighting)
                && v@ == inner + seq!['\n']),
        node matches Node::Heading { level, children } ==> (!(1 <= *level <= 6) ==> (
        r matches Some(v) && exists|inner: Seq<char>|
            #[trigger] joined_parts(children@, inner, Decor::Plain, depth as int, cfg.syntax_highlighting)
                && v@ == seq!['\n'] + inner + seq!['\n'])),
        node matches Node::Heading { level, children } ==> (!(1 <= *level <= 6) && lone_text(
            children@,
        ) ==> (r matches Some(v) && v@ == seq!['\n'] + lone_text_value(children@) + seq!['\n']
            && strip(v@) == v@ && esc_clean(v@))),
        node matches Node::Heading { level, children } ==> (1 <= *level <= 6 ==> (r matches Some(v)
            && exists|inner: Seq<char>|
            #[trigger] joined_parts(children@, inner, Decor::Plain, depth as int, cfg.syntax_highlighting)
                && (esc_clean(inner) ==> strip(v@) == seq!['\n'] + repeat_char('█', *level as int)
                + seq![' '] + strip(inner) + seq!['\n'] && esc_clean(v@)))),
        node matches Node::Heading { level, children } ==> (1 <= *level <= 6 && lone_text(children@)
            ==> (r matches Some(v) && strip(v@) == seq!['\n'] + repeat_char('█', *level as int)
            + seq![' '] + lone_text_value(children@) + seq!['\n'] && esc_clean(v@))),
        node matches Node::Paragraph { children } ==> (r matches Some(v) && exists|inner: Seq<char>|
            #[trigger] joined_parts(children@, inner, Decor::Plain, depth as int, cfg.syntax_highlighting)
                && (has_strike_span(inner) ==> v@ == seq!['\n'] + strike_sub(inner) + seq!['\n'])
                && (!has_strike_span(inner) && esc_clean(inner) ==> strip(v@) == seq!['\n']
                + repeat_char(' ', depth as int) + strip(inner) + seq!['\n'] && esc_clean(v@))),
        node matches Node::Paragraph { children } ==> (lone_text(children@) ==> (r matches Some(v)
            && strip(v@) == seq!['\n'] + repeat_char(' ', depth as int) + lone_text_value(children@)
            + seq!['\n'] && esc_clean(v@))),
        node matches Node::Paragraph { children } ==> (lone_text(children@) && depth == 0 ==> (
        r matches Some(v) && v@ == seq!['\n'] + lone_text_value(children@) + seq!['\n'])),
        node matches Node::Link { url, children } ==> (r matches Some(v) && exists|inner: Seq<char>|
            #[trigger] joined_parts(children@, inner, Decor::Plain, depth as int, cfg.syntax_highlighting)
                && (esc_clean(inner) ==> strip(v@) == strip(inner) + (if has_http(url@) {
                seq![' ', ':', '('] + url@ + seq![')']
            } else {
                Seq::<char>::empty()
            }) && esc_clean(v@))),
        node matches Node::Link { url, children } ==> (lone_text(children@) ==> (r matches Some(v)
            && strip(v@) == lone_text_value(children@) + (if has_http(url@) {
            seq![' ', ':', '('] + url@ + seq![')']
        } else {
            Seq::<char>::empty()
        }) && esc_clean(v@))),
        node matches Node::Emphasis { children } ==> (r matches Some(v) && joined_parts(
            children@,
            v@,
            Decor::Italic,
            depth as int,
            cfg.syntax_highlighting,
        ) && (lone_text(children@) ==> strip(v@) == lone_text_value(children@) && esc_clean(v@))),
        node matches Node::Strong { children } ==> (r matches Some(v) && joined_parts(
            children@,
            v@,
            Decor::Bold,
            depth as int,
            cfg.syntax_highlighting,
        ) && (lone_text(children@) ==> strip(v@) == lone_text_value(children@) && esc_clean(v@))),
        node matches Node::BlockQuote { children } ==> (children@.len() == 1 ==> (
        children@[0] matches Node::Paragraph { children: pc } ==> (lone_text(pc@) ==> (
        r matches Some(v) && strip(v@) == seq!['\n'] + repeat_char(' ', depth + 1 as int)
            + lone_text_value(pc@) + seq!['\n', '\n'] && esc_clean(v@))))),
        node matches Node::FencedCode { lang, value } ==> (r matches Some(v) && strip(v@) == seq![
            '\n',
        ] + (if cfg.syntax_highlighting {
            expand_tabs(value@)
        } else {
            value@
        }) + seq!['\n', '\n'] && esc_clean(v@)),
        node matches Node::List { ordered, start, items } ==> (simple_items(items@) ==> (r matches Some(
            v,
        ) && strip(v@) == seq!['\n'] + list_body(items@, *ordered, depth as int, list_start(*start))
            + seq!['\n'] && esc_clean(v@))),
    decreases node_height(*node), 0int,
{
    match node {
        Node::Root { children } => {
            let mut out = render_children(children, depth, cfg, Decor::Plain);
            let ghost inner0 = out@;
            out.push('\n');
            proof {
                assert(out@ =~= inner0 + seq!['\n']);
            }
            Some(out)
        },
        Node::Paragraph { children } => {
            let joined = render_children(children, depth, cfg, Decor::Plain);
            let ghost inner0 = joined@;
            let (sub, matched) = strike_apply(&joined);
            let mut out: Vec<char> = Vec::new();
            out.push('\n');
            proof {
                assert(out@ =~= seq!['\n']);
                lemma_strip_no_esc(seq!['\n']);
            }
            if matched {
                proof {
                    if lone_text(children@) {
                        match children@[0] {
                            Node::Text { value } => {
                                lemma_strike_sub_id(value@);
                                assert(false);
                            },
                            _ => {},
                        }
                    }
                }
                append_chars(&mut out, &sub);
                out.push('\n');
                proof {
                    assert(out@ =~= seq!['\n'] + sub@ + seq!['\n']);
                }
                Some(out)
            } else {
                let cell_str = paint_cell(" ");
                let cell = chars_of(cell_str.as_str());
                proof {
                    reveal_strlit(" ");
                    lemma_strip_no_esc(" "@);
                }
                let mut d: usize = 0;
                while d < depth
                    invariant
                        d <= depth,
                        depth == 0 ==> out@ == seq!['\n'],
                        esc_clean(cell@),
                        strip(cell@) == " "@,
                        " "@ =~= seq![' '],
                        esc_clean(out@),
                        strip(out@) == seq!['\n'] + repeat_char(' ', d as int),
                    decreases depth - d,
                {
                    append_chars(&mut out, &cell);
                    proof {
                        assert((seq!['\n'] + repeat_char(' ', d as int)) + seq![' '] =~= seq!['\n']
                            + repeat_char(' ', d + 1 as int));
                    }
                    d += 1;
                }
                let ghost mid = out@;
                append_chars(&mut out, &joined);
                let ghost before_nl = out@;
                out.push('\n');
                proof {
                    assert(out@ =~= before_nl + seq!['\n']);
                    if esc_clean(inner0) {
                        lemma_esc_clean_concat(mid, inner0);
                        lemma_strip_concat(before_nl, seq!['\n']);
                        lemma_esc_clean_concat(before_nl, seq!['\n']);
                        assert(strip(out@) =~= seq!['\n'] + repeat_char(' ', depth as int) + strip(
                            inner0,
                        ) + seq!['\n']);
                    }
                    if lone_text(children@) {
                        lemma_nodes_wf_index(children@, 0);
                        match children@[0] {
                            Node::Text { value } => {
                                lemma_strike_sub_id(value@);
                                lemma_strip_no_esc(value@);
                                assert(strip(out@) =~= seq!['\n'] + repeat_char(' ', depth as int)
                                    + value@ + seq!['\n']);
                                if depth == 0 {
                                    assert(mid =~= seq!['\n']);
                                    assert(out@ =~= seq!['\n'] + value@ + seq!['\n']);
                                }
                            },
                            _ => {},
                        }
                    }
                }
                Some(out)
            }
        },
        Node::Text { value } => {
            let chars = chars_of(value.as_str());
            let (sub, _matched) = strike_apply(&chars);
            proof {
                lemma_strike_sub_no_esc(value@);
                lemma_strip_no_esc(sub@);
            }
            Some(sub)
        },
        Node::Heading { level, children } => {
            let level = *level;
            let joined = render_children(children, depth, cfg, Decor::Plain);
            let ghost inner0 = joined@;
            let mut out: Vec<char> = Vec::new();
            out.push('\n');
            proof {
                assert(out@ =~= seq!['\n']);
                lemma_strip_no_esc(seq!['\n']);
            }
            if 1 <= level && level <= 6 {
                let color = cfg.heading_color(level);
                let mut line = repeat_chars('█', level as usize);
                line.push(' ');
                proof {
                    assert(line@ =~= repeat_char('█', level as int) + seq![' ']);
                    lemma_strip_no_esc(line@);
                }
                let ghost line_pre = line@;
                append_chars(&mut line, &joined);
                let styled = paint(string_of(&line).as_str(), color);
                let styled_chars = chars_of(styled.as_str());
                append_chars(&mut out, &styled_chars);
                let ghost before_nl = out@;
                out.push('\n');
                proof {
                    assert(out@ =~= before_nl + seq!['\n']);
                    if esc_clean(inner0) {
                        lemma_esc_clean_concat(line_pre, inner0);
                        lemma_strip_concat(line_pre, inner0);
                        lemma_esc_clean_concat(seq!['\n'], styled_chars@);
                        lemma_strip_concat(before_nl, seq!['\n']);
                        lemma_esc_clean_concat(before_nl, seq!['\n']);
                        assert(strip(out@) =~= seq!['\n'] + repeat_char('█', level as int)
                            + seq![' '] + strip(inner0) + seq!['\n']);
                    }
                    if lone_text(children@) {
                        lemma_nodes_wf_index(children@, 0);
                        match children@[0] {
                            Node::Text { value } => {
                                lemma_strike_sub_id(value@);
                                lemma_strip_no_esc(value@);
                                assert(strip(out@) =~= seq!['\n'] + repeat_char('█', level as int)
                                    + seq![' '] + value@ + seq!['\n']);
                            },
                            _ => {},
                        }
                    }
                }
                Some(out)
            } else {
                append_chars(&mut out, &joined);
                let ghost before_nl = out@;
                out.push('\n');
                proof {
                    assert(out@ =~= before_nl + seq!['\n']);
                    assert(out@ =~= seq!['\n'] + inner0 + seq!['\n']);
                    if lone_text(children@) {
                        lemma_nodes_wf_index(children@, 0);
                        match children@[0] {
                            Node::Text { value } => {
                                lemma_strike_sub_id(value@);
                                lemma_strip_no_esc(value@);
                                assert(out@ =~= seq!['\n'] + value@ + seq!['\n']);
                                assert forall|k: int| 0 <= k < out@.len() implies out@[k]
                                    != crate::text::ESCAPE by {
                                    if 1 <= k < 1 + value@.len() {
                                        assert(out@[k] == value@[k - 1]);
                                    }
                                }
                                lemma_strip_no_esc(out@);
                            },
                            _ => {},
                        }
                    }
                }
                Some(out)
            }
        },
        Node::InlineCode { value } => {
            let color = cfg.inline_code_color();
            let styled = paint(value.as_str(), color);
            let out = chars_of(styled.as_str());
            proof {
                lemma_strip_no_esc(value@);
            }
            Some(out)
        },
        Node::FencedCode { lang, value } => {
            let language: &str = match lang {
                Some(l) => l.as_str(),
                None => "plaintext",
            };
            let color = cfg.code_color();
            let mut out: Vec<char> = Vec::new();
            out.push('\n');
            proof {
                assert(out@ =~= seq!['\n']);
                lemma_strip_no_esc(seq!['\n']);
            }
            let body: String = if cfg.syntax_highlighting {
                let theme = cfg.theme_name();
                let theme_owned = String::from_str(theme);
                syntax_highlighter(language, value.clone(), theme_owned, cfg.syntax_bg)
            } else {
                value.clone()
            };
            proof {
                lemma_strip_no_esc(value@);
            }
            let styled = paint(body.as_str(), color);
            let styled_chars = chars_of(styled.as_str());
            append_chars(&mut out, &styled_chars);
            let ghost mid = out@;
            out.push('\n');
            out.push('\n');
            proof {
                assert(out@ =~= (mid + seq!['\n']) + seq!['\n']);
                lemma_strip_concat(mid, seq!['\n']);
                lemma_esc_clean_concat(mid, seq!['\n']);
                lemma_strip_concat(mid + seq!['\n'], seq!['\n']);
                lemma_esc_clean_concat(mid + seq!['\n'], seq!['\n']);
                lemma_strip_no_esc(seq!['\n']);
                assert(strip(out@) =~= seq!['\n'] + strip(styled_chars@) + seq!['\n', '\n']);
            }
            Some(out)
        },
        Node::Emphasis { children } => {
            let out = render_children(children, depth, cfg, Decor::Italic);
            proof {
                if lone_text(children@) {
                    match children@[0] {
                        Node::Text { value } => {
                            lemma_strike_sub_id(value@);
                        },
                        _ => {},
                    }
                }
            }
            Some(out)
        },
        Node::Strong { children } => {
            let out = render_children(children, depth, cfg, Decor::Bold);
            proof {
                if lone_text(children@) {
                    match children@[0] {
                        Node::Text { value } => {
                            lemma_strike_sub_id(value@);
                        },
                        _ => {},
                    }
                }
            }
            Some(out)
        },
        Node::Link { url, children } => {
            let color_url = cfg.link_url_color();
            let color_text = cfg.link_text_color();
            let joined = render_children(children, depth, cfg, Decor::Plain);
            let ghost inner0 = joined@;
            let styled = paint(string_of(&joined).as_str(), color_text);
            let mut out = chars_of(styled.as_str());
            let url_chars = chars_of(url.as_str());
            proof {
                lemma_strip_no_esc(url@);
                if lone_text(children@) {
                    lemma_nodes_wf_index(children@, 0);
                    match children@[0] {
                        Node::Text { value } => {
                            lemma_strike_sub_id(value@);
                            lemma_strip_no_esc(value@);
                        },
                        _ => {},
                    }
                }
            }
            if contains_http(&url_chars) {
                let mut tail: Vec<char> = Vec::new();
                tail.push(' ');
                tail.push(':');
                tail.push('(');
                proof {
                    assert(tail@ =~= seq![' ', ':', '(']);
                    lemma_strip_no_esc(seq![' ', ':', '(']);
                }
                let ghost head = out@;
                append_chars(&mut out, &tail);
                let styled_url = paint(url.as_str(), color_url);
                let styled_url_chars = chars_of(styled_url.as_str());
                let ghost with_tail = out@;
                append_chars(&mut out, &styled_url_chars);
                let mut close: Vec<char> = Vec::new();
                close.push(')');
                proof {
                    assert(close@ =~= seq![')']);
                    lemma_strip_no_esc(seq![')']);
                }
                let ghost with_url = out@;
                append_chars(&mut out, &close);
                proof {
                    if esc_clean(inner0) {
                        lemma_esc_clean_concat(head, tail@);
                        lemma_esc_clean_concat(with_tail, styled_url_chars@);
                        lemma_esc_clean_concat(with_url, close@);
                        assert(strip(out@) =~= strip(inner0) + (seq![' ', ':', '('] + url@
                            + seq![')']));
                    }
                    if lone_text(children@) {
                        match children@[0] {
                            Node::Text { value } => {
                                assert(strip(out@) =~= value@ + (seq![' ', ':', '('] + url@
                                    + seq![')']));
                            },
                            _ => {},
                        }
                    }
                }
                Some(out)
            } else {
                proof {
                    if esc_clean(inner0) {
                        assert(strip(out@) =~= strip(inner0) + Seq::<char>::empty());
                    }
                    if lone_text(children@) {
                        match children@[0] {
                            Node::Text { value } => {
                                assert(strip(out@) =~= value@ + Seq::<char>::empty());
                            },
                            _ => {},
                        }
                    }
                }
                Some(out)
            }
        },
        Node::ThematicBreak => {
            let mut out: Vec<char> = Vec::new();
            out.push('\n');
            out.push('-');
            out.push('-');
            out.push('-');
            out.push('\n');
            proof {
                assert(out@ =~= seq!['\n', '-', '-', '-', '\n']);
                lemma_strip_no_esc(out@);
            }
            Some(out)
        },
        Node::BlockQuote { children } => {
            proof {
                assert(nodes_height(children@) < node_height(*node));
            }
            let joined = render_children(children, depth + 1, cfg, Decor::Plain);
            let styled = paint_inverse(string_of(&joined).as_str());
            let mut out = chars_of(styled.as_str());
            let ghost before_nl = out@;
            out.push('\n');
            proof {
                assert(out@ =~= before_nl + seq!['\n']);
                if children@.len() == 1 {
                    match children@[0] {
                        Node::Paragraph { children: pc } => {
                            if lone_text(pc@) {
                                lemma_strip_no_esc(seq!['\n']);
                                lemma_strip_concat(before_nl, seq!['\n']);
                                lemma_esc_clean_concat(before_nl, seq!['\n']);
                                assert(strip(out@) =~= seq!['\n'] + repeat_char(
                                    ' ',
                                    depth + 1 as int,
                                ) + lone_text_value(pc@) + seq!['\n', '\n']);
                            }
                        },
                        _ => {},
                    }
                }
            }
            Some(out)
        },
        Node::List { ordered, start, items } => {
            let ordered = *ordered;
            let bullet_color = cfg.bullet_color(ordered);
            let text_color = cfg.list_color(ordered);
            let mut num: u32 = match start {
                Some(n) => *n,
                None => 1,
            };
            let mut out: Vec<char> = Vec::new();
            out.push('\n');
            proof {
                assert(out@ =~= seq!['\n']);
                lemma_strip_no_esc(seq!['\n']);
                assert(items@.take(0) =~= Seq::<ListItem>::empty());
            }
            let n = items.len();
            let mut i: usize = 0;
            while i < n
                invariant
                    i <= n,
                    n == items@.len(),
                    items_wf(items@),
                    list_start(*start) + n <= u32::MAX,
                    num == list_start(*start) + i,
                    depth + node_height(*node) <= MAX_DEPTH,
                    node_height(*node) == 2 + items_height(items@),
                    simple_items(items@) ==> esc_clean(out@) && strip(out@) == seq!['\n']
                        + list_body(
                        items@.take(i as int),
                        ordered,
                        depth as int,
                        list_start(*start),
                    ),
                decreases n - i,
            {
                let item = &items[i];
                proof {
                    lemma_items_wf_index(items@, i as int);
                    lemma_items_height_ge(items@, i as int);
                }
                let mut line = repeat_chars(' ', 2 * depth);
                proof {
                    lemma_strip_no_esc(line@);
                }
                let bullet: String = if ordered {
                    let mut b: Vec<char> = Vec::new();
                    b.push(' ');
                    let digits = u32_digits(num);
                    append_chars(&mut b, &digits);
                    b.push('.');
                    b.push(' ');
                    proof {
                        lemma_dec_rep_plain(num as int);
                        assert(b@ =~= bullet_mark(true, depth as int, num as int));
                        lemma_strip_no_esc(b@);
                    }
                    paint(string_of(&b).as_str(), bullet_color)
                } else {
                    let g: char = if depth % 4 == 0 {
                        '•'
                    } else if depth % 4 == 1 {
                        '·'
                    } else if depth % 4 == 2 {
                        '*'
                    } else {
                        '-'
                    };
                    let mut b: Vec<char> = Vec::new();
                    b.push(' ');
                    b.push(g);
                    b.push(' ');
                    proof {
                        assert(b@ =~= bullet_mark(false, depth as int, num as int));
                        lemma_strip_no_esc(b@);
                    }
                    paint(string_of(&b).as_str(), bullet_color)
                };
                let bullet_chars = chars_of(bullet.as_str());
                append_chars(&mut line, &bullet_chars);
                let ghost line_pre = line@;
                proof {
                    assert(strip(line_pre) == repeat_char(' ', 2 * depth as int) + bullet_mark(
                        ordered,
                        depth as int,
                        num as int,
                    ));
                }
                let m = item.children.len();
                let mut j: usize = 0;
                while j < m
                    invariant
                        j <= m,
                        m == item.children@.len(),
                        nodes_wf(item.children@),
                        depth + 1 + nodes_height(item.children@) <= MAX_DEPTH,
                        nodes_height(item.children@) <= items_height(items@),
                        node_height(*node) == 2 + items_height(items@),
                        esc_clean(line_pre),
                        strip(line_pre) == repeat_char(' ', 2 * depth as int) + bullet_mark(
                            ordered,
                            depth as int,
                            num as int,
                        ),
                        simple_item(*item) && j == 0 ==> line@ == line_pre,
                        simple_item(*item) && j >= 1 ==> esc_clean(line@) && strip(line@) == strip(
                            line_pre,
                        ) + item_value(*item),
                    decreases m - j,
                {
                    proof {
                        lemma_nodes_wf_index(item.children@, j as int);
                        lemma_nodes_height_ge(item.children@, j as int);
                    }
                    let child = &item.children[j];
                    match child {
                        Node::Paragraph { children } => {
                            proof {
                                assert(nodes_height(children@) < node_height(
                                    item.children@[j as int],
                                ));
                            }
                            let inner = render_children(children, depth + 1, cfg, Decor::Plain);
                            append_chars(&mut line, &inner);
                            proof {
                                if simple_item(*item) && j == 0 {
                                    assert(node_wf(item.children@[0]));
                                    assert(nodes_wf(children@));
                                    lemma_nodes_wf_index(children@, 0);
                                    match children@[0] {
                                        Node::Text { value } => {
                                            lemma_strike_sub_id(value@);
                                            lemma_strip_no_esc(value@);
                                            lemma_esc_clean_concat(line_pre, inner@);
                                        },
                                        _ => {},
                                    }
                                }
                            }
                        },
                        _ => {
                            let rendered = render_node(child, depth + 1, cfg);
                            match rendered {
                                Some(text) => {
                                    append_chars(&mut line, &text);
                                },
                                None => {},
                            }
                            proof {
                                if simple_item(*item) && j == 0 {
                                    assert(false);
                                }
                            }
                        },
                    }
                    j += 1;
                }
                let ghost line_body = line@;
                line.push('\n');
                proof {
                    assert(line@ =~= line_body + seq!['\n']);
                    if simple_item(*item) {
                        assert(m == 1);
                        lemma_strip_no_esc(seq!['\n']);
                        lemma_strip_concat(line_body, seq!['\n']);
                        lemma_esc_clean_concat(line_body, seq!['\n']);
                    }
                }
                let styled = paint(string_of(&line).as_str(), text_color);
                let styled_chars = chars_of(styled.as_str());
                let ghost out_pre = out@;
                append_chars(&mut out, &styled_chars);
                proof {
                    if simple_items(items@) {
                        assert(simple_item(items@[i as int]));
                        assert(*item == items@[i as int]);
                        assert(strip(styled_chars@) =~= repeat_char(' ', 2 * depth as int)
                            + bullet_mark(ordered, depth as int, num as int) + item_value(
                            items@[i as int],
                        ) + seq!['\n']);
                        lemma_list_body_step(
                            items@,
                            i as int,
                            ordered,
                            depth as int,
                            list_start(*start),
                        );
                        assert(strip(out@) =~= seq!['\n'] + list_body(
                            items@.take(i + 1 as int),
                            ordered,
                            depth as int,
                            list_start(*start),
                        ));
                    }
                }
                num = num + 1;
                i += 1;
            }
            let ghost out_body = out@;
            out.push('\n');
            proof {
                assert(out@ =~= out_body + seq!['\n']);
                if simple_items(items@) {
                    lemma_strip_concat(out_body, seq!['\n']);
                    lemma_esc_clean_concat(out_body, seq!['\n']);
                    lemma_strip_no_esc(seq!['\n']);
                    assert(items@.take(n as int) =~= items@);
                    assert(strip(out@) =~= seq!['\n'] + list_body(
                        items@,
                        ordered,
                        depth as int,
                        list_start(*start),
                    ) + seq!['\n']);
                }
            }
            Some(out)
        },
        Node::Other => None,
    }
}

} // verus!
