//! The style configuration for one render cycle.
//!
//! Every color key is optional and resolves to a fixed per-element default;
//! the three layout flags are required and have no default.
use vstd::prelude::*;

verus! {

/// Which terminal profile vertical alignment pads for.
pub enum TerminalKind {
    /// The default profile: vertical alignment pads the top by the blank
    /// count and the bottom by one line.
    Default,
    /// A terminal that reserves its own top and bottom padding, which gets
    /// two lines less on each end and moves the bounds instead.
    Warp,
}

/// The style configuration, replaced wholesale at the start of a render.
pub struct StyleConfig {
    pub h1: Option<String>,
    pub h2: Option<String>,
    pub h3: Option<String>,
    pub h4: Option<String>,
    pub h5: Option<String>,
    pub h6: Option<String>,
    pub inline_code: Option<String>,
    pub code: Option<String>,
    pub link_url: Option<String>,
    pub link_text: Option<String>,
    pub ordered_list_bullet: Option<String>,
    pub unordered_list_bullet: Option<String>,
    pub ordered_list: Option<String>,
    pub unordered_list: Option<String>,
    pub syntax_theme: Option<String>,
    pub syntax_highlighting: bool,
    pub syntax_bg: bool,
    pub boxed: bool,
    pub horizontal_alignment: bool,
    pub vertical_alignment: bool,
    pub terminal: TerminalKind,
}

/// The configured value of an optional key, or its default.
pub open spec fn resolved(v: Option<String>, dflt: Seq<char>) -> Seq<char> {
    match v {
        Some(s) => s@,
        None => dflt,
    }
}

fn resolve<'a>(v: &'a Option<String>, dflt: &'a str) -> (r: &'a str)
    ensures
        r@ == resolved(*v, dflt@),
{
    match v {
        Some(s) => s.as_str(),
        None => dflt,
    }
}

impl StyleConfig {
    /// A configuration with no optional key set.
    pub fn bare(boxed: bool, horizontal_alignment: bool, vertical_alignment: bool) -> (r:
        StyleConfig)
        ensures
            r.h1 is None,
            r.h2 is None,
            r.h3 is None,
            r.h4 is None,
            r.h5 is None,
            r.h6 is None,
            r.inline_code is None,
            r.code is None,
            r.link_url is None,
            r.link_text is None,
            r.ordered_list_bullet is None,
            r.unordered_list_bullet is None,
            r.ordered_list is None,
            r.unordered_list is None,
            r.syntax_theme is None,
            r.syntax_highlighting == true,
            r.syntax_bg == true,
            r.boxed == boxed,
            r.horizontal_alignment == horizontal_alignment,
            r.vertical_alignment == vertical_alignment,
            r.terminal is Default,
    {
        StyleConfig {
            h1: None,
            h2: None,
            h3: None,
            h4: None,
            h5: None,
            h6: None,
            inline_code: None,
            code: None,
            link_url: None,
            link_text: None,
            ordered_list_bullet: None,
            unordered_list_bullet: None,
            ordered_list: None,
            unordered_list: None,
            syntax_theme: None,
            syntax_highlighting: true,
            syntax_bg: true,
            boxed,
            horizontal_alignment,
            vertical_alignment,
            terminal: TerminalKind::Default,
        }
    }

    /// The heading color for `level` in 1 ..= 6.
    pub fn heading_color(&self, level: u8) -> (r: &str)
        requires
            1 <= level <= 6,
        ensures
            level == 1 ==> r@ == resolved(self.h1, "red"@),
            level == 2 ==> r@ == resolved(self.h2, "yellow"@),
            level == 3 ==> r@ == resolved(self.h3, "green"@),
            level == 4 ==> r@ == resolved(self.h4, "blue"@),
            level == 5 ==> r@ == resolved(self.h5, "magenta"@),
            level == 6 ==> r@ == resolved(self.h6, "cyan"@),
    {
        if level == 1 {
            resolve(&self.h1, "red")
        } else if level == 2 {
            resolve(&self.h2, "yellow")
        } else if level == 3 {
            resolve(&self.h3, "green")
        } else if level == 4 {
            resolve(&self.h4, "blue")
        } else if level == 5 {
            resolve(&self.h5, "magenta")
        } else {
            resolve(&self.h6, "cyan")
        }
    }

    pub fn inline_code_color(&self) -> (r: &str)
        ensures
            r@ == resolved(self.inline_code, "green"@),
    {
        resolve(&self.inline_code, "green")
    }

    pub fn code_color(&self) -> (r: &str)
        ensures
            r@ == resolved(self.code, "white"@),
    {
        resolve(&self.code, "white")
    }

    pub fn link_url_color(&self) -> (r: &str)
        ensures
            r@ == resolved(self.link_url, "green"@),
    {
        resolve(&self.link_url, "green")
    }

    pub fn link_text_color(&self) -> (r: &str)
        ensures
            r@ == resolved(self.link_text, "blue"@),
    {
        resolve(&self.link_text, "blue")
    }

    /// The bullet color of a list of the given orderedness.
    pub fn bullet_color(&self, ordered: bool) -> (r: &str)
        ensures
            ordered ==> r@ == resolved(self.ordered_list_bullet, "green"@),
            !ordered ==> r@ == resolved(self.unordered_list_bullet, "green"@),
    {
        if ordered {
            resolve(&self.ordered_list_bullet, "green")
        } else {
            resolve(&self.unordered_list_bullet, "green")
        }
    }

    /// The item text color of a list of the given orderedness.
    pub fn list_color(&self, ordered: bool) -> (r: &str)
        ensures
            ordered ==> r@ == resolved(self.ordered_list, "blue"@),
            !ordered ==> r@ == resolved(self.unordered_list, "blue"@),
    {
        if ordered {
            resolve(&self.ordered_list, "blue")
        } else {
            resolve(&self.unordered_list, "blue")
        }
    }

    pub fn theme_name(&self) -> (r: &str)
        ensures
            r@ == resolved(self.syntax_theme, "base16-ocean.dark"@),
    {
        resolve(&self.syntax_theme, "base16-ocean.dark")
    }
}

} // verus!
