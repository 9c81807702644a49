//! Syntax highlighting of fenced code through the `syntect` engine.
use vstd::prelude::*;
use crate::node::text_plain;
use crate::text::{esc_clean, strip, ESCAPE};

verus! {

/// `s` with every tab replaced by four spaces.
pub open spec fn expand_tabs(s: Seq<char>) -> Seq<char>
    decreases s.len()
{
    if s.len() == 0 {
        Seq::empty()
    } else if s[0] == '\t' {
        seq![' ', ' ', ' ', ' '] + expand_tabs(s.drop_first())
    } else {
        seq![s[0]] + expand_tabs(s.drop_first())
    }
}

/// Expansion introduces no escape character.
pub proof fn lemma_expand_tabs_plain(s: Seq<char>)
    requires
        text_plain(s),
    ensures
        text_plain(expand_tabs(s)),
    decreases s.len(),
{
    if s.len() > 0 {
        assert(text_plain(s.drop_first()));
        lemma_expand_tabs_plain(s.drop_first());
        let e = expand_tabs(s);
        let tail = expand_tabs(s.drop_first());
        let head: Seq<char> = if s[0] == '\t' {
            seq![' ', ' ', ' ', ' ']
        } else {
            seq![s[0]]
        };
        assert forall|i: int| 0 <= i < e.len() implies e[i] != ESCAPE by {
            if i >= head.len() {
                assert(e[i] == tail[i - head.len()]);
            }
        }
    }
}

/// Exec form of `expand_tabs`.
pub fn expand_tabs_chars(v: &Vec<char>) -> (r: Vec<char>)
    ensures
        r@ == expand_tabs(v@),
{
    let n = v.len();
    let mut out: Vec<char> = Vec::new();
    let mut i: usize = 0;
    proof {
        assert(v@.skip(0) =~= v@);
        assert(Seq::<char>::empty() + expand_tabs(v@) =~= expand_tabs(v@));
    }
    while i < n
        invariant
            i <= n,
            n == v@.len(),
            expand_tabs(v@) == out@ + expand_tabs(v@.skip(i as int)),
        decreases n - i,
    {
        let ghost rest = v@.skip(i as int);
        let c = v[i];
        if c == '\t' {
            out.push(' ');
            out.push(' ');
            out.push(' ');
            out.push(' ');
        } else {
            out.push(c);
        }
        proof {
            assert(rest.drop_first() =~= v@.skip(i + 1 as int));
            assert(out@ + expand_tabs(v@.skip(i + 1 as int)) =~= expand_tabs(v@));
        }
        i += 1;
    }
    proof {
        assert(expand_tabs(v@.skip(n as int)) =~= Seq::<char>::empty());
        assert(out@ =~= expand_tabs(v@));
    }
    out
}

/// What the engine returns for the given language, code, theme and
/// background flag: the engine and its bundled grammars and themes are fixed,
/// so the result is a function of these arguments alone.
pub uninterp spec fn highlight_of(language: Seq<char>, code: Seq<char>, theme: Seq<char>, bg: bool) -> Seq<char>;

/// Relies on syntect: `SyntaxSet::load_defaults_newlines`, `ThemeSet::
/// load_defaults`, `HighlightLines::highlight_line` and
/// `as_24_bit_terminal_escaped`. On text free of escape characters the
/// engine inserts complete `ESC [ ... m` sequences around the text's own
/// characters and changes nothing else; an unknown language falls back to
/// plain text, an unknown theme to the engine's stock default; a line the
/// engine refuses is passed through.
#[verifier::external_body]
fn highlight_engine(language: &str, code: &str, theme: &str, bg: bool) -> (r: String)
    ensures
        r@ == highlight_of(language@, code@, theme@, bg),
        text_plain(code@) ==> strip(r@) == code@ && esc_clean(r@),
{
    let ps = syntect::parsing::SyntaxSet::load_defaults_newlines();
    let ts = syntect::highlighting::ThemeSet::load_defaults();
    let syntax = ps.find_syntax_by_extension(language).unwrap_or_else(|| ps.find_syntax_plain_text());
    let theme = ts.themes.get(theme).unwrap_or_else(|| &ts.themes["base16-ocean.dark"]);
    let mut h = syntect::easy::HighlightLines::new(syntax, theme);
    let mut out = String::new();
    for line in syntect::util::LinesWithEndings::from(code) {
        match h.highlight_line(line, &ps) {
            Ok(r) => out.push_str(&syntect::util::as_24_bit_terminal_escaped(&r[..], bg)),
            Err(_) => out.push_str(line),
        }
    }
    out
}

/// Colorize a fenced code body line by line, tabs expanded to four spaces
/// first. Unknown languages and themes degrade to plain text and the stock
/// theme; the call never fails.
pub fn syntax_highlighter(language: &str, code_section: String, theme: String, bg: bool) -> (r:
    String)
    ensures
        r@ == highlight_of(language@, expand_tabs(code_section@), theme@, bg),
        text_plain(code_section@) ==> strip(r@) == expand_tabs(code_section@) && esc_clean(r@),
{
    let chars = crate::text::chars_of(code_section.as_str());
    let expanded = expand_tabs_chars(&chars);
    let expanded_str = crate::text::string_of(&expanded);
    proof {
        if text_plain(code_section@) {
            lemma_expand_tabs_plain(code_section@);
        }
    }
    highlight_engine(language, expanded_str.as_str(), theme.as_str(), bg)
}

} // verus!
