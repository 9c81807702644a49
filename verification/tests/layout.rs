use mdpretty::layout::{
    align_content, align_custom, align_horizontal, align_vertical, draw_box, get_bounds, Bounds,
    ColorMap,
};
use mdpretty::style::{StyleConfig, TerminalKind};

fn cfg(boxed: bool, horizontal: bool, vertical: bool) -> StyleConfig {
    StyleConfig::bare(boxed, horizontal, vertical)
}

/// Remove every complete `ESC [ ... m` sequence.
fn strip_esc(s: &str) -> String {
    let v: Vec<char> = s.chars().collect();
    let mut out = String::new();
    let mut i = 0;
    while i < v.len() {
        if v[i] == '\u{1b}' && i + 1 < v.len() && v[i + 1] == '[' {
            let mut j = i + 2;
            let mut found = None;
            while j < v.len() {
                if v[j] == 'm' {
                    found = Some(j);
                    break;
                }
                j += 1;
            }
            if let Some(j) = found {
                i = j + 1;
                continue;
            }
        }
        out.push(v[i]);
        i += 1;
    }
    out
}

fn visible_len(s: &str) -> usize {
    strip_esc(s).chars().filter(|c| *c != '\u{336}').count()
}

#[test]
fn stage_a_is_noop_without_tokens() {
    let text = String::from("hello\nworld\n");
    assert_eq!(align_custom(text.clone()), text);
}

#[test]
fn stage_a_idempotent_after_one_pass() {
    let text = String::from("abcdef\nab$[c]$\n");
    let once = align_custom(text);
    let twice = align_custom(once.clone());
    assert_eq!(once, twice);
}

#[test]
fn stage_a_centers_against_longest_line() {
    // longest visible line is "abcdef" with the token line still 7 chars long
    let text = String::from("abcdef\nab$[c]$\n");
    let once = align_custom(text);
    assert_eq!(once, "abcdef\n  ab\n");
}

#[test]
fn stage_a_right_aligns() {
    // the token line itself is 7 columns before removal, so the slack is 5
    let text = String::from("abcdef\nab$[r]$\n");
    assert_eq!(align_custom(text), "abcdef\n     ab\n");
}

#[test]
fn stage_a_l_token_is_only_removed() {
    let text = String::from("abcdef\nab$[l]$\n");
    assert_eq!(align_custom(text), "abcdef\nab\n");
}

#[test]
fn stage_a_expands_rules_to_full_width() {
    let text = String::from("---\nabcdef\n");
    assert_eq!(align_custom(text), "------\nabcdef\n");
}

#[test]
fn stage_a_rule_alone_is_fixed_point() {
    let text = String::from("---\n");
    assert_eq!(align_custom(text), "---\n");
}

#[test]
fn box_every_line_has_equal_visible_length() {
    let cm = ColorMap { colors: Vec::new() };
    let boxed = draw_box("ab\n", &cm);
    // content pieces are "ab" and "", so the framing width is 2
    for line in boxed.lines() {
        assert_eq!(visible_len(line), 2 + 6);
    }
}

#[test]
fn box_pads_content_and_resets_colors() {
    let cm = ColorMap { colors: Vec::new() };
    let boxed = draw_box("ab", &cm);
    let expected = format!(
        "┌──────┐\n│  {r}{r}ab{r}  │\n└──────┘\n",
        r = "\u{1b}[0m"
    );
    assert_eq!(boxed, expected);
}

#[test]
fn horizontal_centering_pads_each_line_by_half_the_slack() {
    let line: String = std::iter::repeat('a').take(20).collect();
    let text = format!("{}\n", line);
    let out = align_horizontal(text, &cfg(false, true, false), 80, ColorMap { colors: Vec::new() });
    let expected = format!("{}{}{}{}\n", " ".repeat(30), "\u{1b}[0m", line, "\u{1b}[0m");
    assert_eq!(out, expected);
}

#[test]
fn horizontal_centering_skipped_when_width_is_too_small() {
    let text = String::from("abcdef\n");
    let out = align_horizontal(
        text.clone(),
        &cfg(false, true, false),
        4,
        ColorMap { colors: Vec::new() },
    );
    assert_eq!(out, text);
}

#[test]
fn vertical_default_profile_pads_to_eighteen_lines() {
    // height 24 and 10 content lines give blank = 7
    let mut style = cfg(false, false, true);
    style.terminal = TerminalKind::Default;
    let text = "x\n".repeat(10);
    let mut upper = 0u32;
    let mut lower = 0u32;
    let out = align_vertical(text, &style, 24, &mut upper, &mut lower);
    assert_eq!(out, format!("{}{}{}", "\n".repeat(7), "x\n".repeat(10), "\n"));
    assert_eq!(out.lines().count(), 18);
    assert_eq!(upper, 0);
    assert_eq!(lower, 0);
}

#[test]
fn vertical_warp_profile_pads_both_ends_and_moves_bounds() {
    // height 24 and 4 content lines give blank = 10: eight newlines each side
    let mut style = cfg(false, false, true);
    style.terminal = TerminalKind::Warp;
    let text = "x\n".repeat(4);
    let mut upper = 3u32;
    let mut lower = 0u32;
    let out = align_vertical(text, &style, 24, &mut upper, &mut lower);
    assert_eq!(out, format!("{}{}{}", "\n".repeat(8), "x\n".repeat(4), "\n".repeat(8)));
    assert_eq!(upper, 13);
    assert_eq!(lower, 10);
}

#[test]
fn vertical_default_profile_pads_one_each_side_on_short_height() {
    // height no larger than the line count gives blank = 0: still one blank
    // line before and one after
    let style = cfg(false, false, true);
    let text = "x\n".repeat(4);
    let mut upper = 0u32;
    let mut lower = 0u32;
    let out = align_vertical(text, &style, 4, &mut upper, &mut lower);
    assert_eq!(out, format!("\n{}\n", "x\n".repeat(4)));
    assert_eq!((upper, lower), (0, 0));
}

#[test]
fn vertical_default_profile_is_the_unconfigured_profile() {
    // a configuration with no terminal key set pads exactly as the default
    // profile does
    let style = cfg(false, false, true);
    let text = "x\n".repeat(10);
    let mut upper = 0u32;
    let mut lower = 0u32;
    let out = align_vertical(text, &style, 24, &mut upper, &mut lower);
    assert_eq!(out, format!("{}{}{}", "\n".repeat(7), "x\n".repeat(10), "\n"));
    assert_eq!((upper, lower), (0, 0));
}

#[test]
fn align_content_reports_bounds_of_the_cycle() {
    let (out, bounds) = align_content(String::from("\nhi\n\n"), &cfg(false, false, false), 80, 24);
    assert_eq!(out, "\nhi\n\n\n");
    assert_eq!(get_bounds(&bounds), (3, 0));
}

#[test]
fn align_content_box_adds_four_to_upper_bound() {
    let (_, bounds) = align_content(String::from("hi\n"), &cfg(true, false, false), 80, 24);
    let (upper, lower) = get_bounds(&bounds);
    assert_eq!(upper, 1 + 4);
    assert_eq!(lower, 0);
}

#[test]
fn bounds_accessor_returns_both_counters() {
    let b = Bounds { upper: 7, lower: 2 };
    assert_eq!(get_bounds(&b), (7, 2));
}

#[test]
fn store_colors_carries_the_active_color_to_later_lines() {
    let first: Vec<char> = "\u{1b}[31mred".chars().collect();
    let second: Vec<char> = "next".chars().collect();
    let cm = mdpretty::layout::store_colors(&vec![first, second]);
    let out = align_horizontal(
        String::from("\u{1b}[31mred\nnext\n"),
        &cfg(false, true, false),
        20,
        cm,
    );
    let expected = format!(
        "{pad}{r}\u{1b}[31mred{r}\n{pad}\u{1b}[31mnext{r}\n",
        pad = " ".repeat(8),
        r = "\u{1b}[0m"
    );
    assert_eq!(out, expected);
}

#[test]
fn all_stages_compose_and_report_warp_bounds() {
    let mut style = cfg(true, true, true);
    style.terminal = TerminalKind::Warp;
    let (out, bounds) = align_content(String::from("hi\n"), &style, 80, 24);
    // one content line framed into four box lines, then eight blank lines on
    // each side, then the final newline
    assert_eq!(out.lines().count(), 8 + 4 + 8 + 1);
    assert_eq!(get_bounds(&bounds), (1 + 4 + 10, 10));
}
