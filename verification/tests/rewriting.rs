use daylight::rewrite::{rewrite_document, rewrite_line};
use daylight::SunState;

fn b(s: &str) -> Vec<u8> {
    s.as_bytes().to_vec()
}

#[test]
fn scenario_state_change_rewrites_theme_line() {
    // state file reads Down, target is the other state: the theme-reference
    // line is rewritten, the unrelated line is untouched
    let doc = b("background: \"#000000\"\ncolors: *themealight_variant\n");
    let out = rewrite_document(&doc, SunState::Down);
    assert_eq!(out, b("background: \"#000000\"\ncolors: *themeadark_variant\n"));
}

#[test]
fn rewrite_line_swaps_mode_token() {
    assert_eq!(
        rewrite_line(&b("colors: *solarized_light_base"), SunState::Down),
        b("colors: *solarized_dark_base")
    );
    assert_eq!(
        rewrite_line(&b("colors: *solarized_dark_base"), SunState::Up),
        b("colors: *solarized_light_base")
    );
}

#[test]
fn rewrite_line_leaves_non_matching_lines() {
    assert_eq!(rewrite_line(&b(""), SunState::Down), b(""));
    assert_eq!(rewrite_line(&b("font_size: 11"), SunState::Down), b("font_size: 11"));
    // the mode token needs a nonempty identifier prefix and suffix
    assert_eq!(rewrite_line(&b("colors: *light_x"), SunState::Down), b("colors: *light_x"));
    assert_eq!(rewrite_line(&b("colors: *xlight"), SunState::Down), b("colors: *xlight"));
    // the words alone do not make a theme reference
    assert_eq!(rewrite_line(&b("theme: lighter"), SunState::Down), b("theme: lighter"));
}

#[test]
fn rewrite_line_picks_rightmost_token() {
    // the greedy identifier prefix claims every earlier occurrence
    assert_eq!(
        rewrite_line(&b("colors: *lightdarklight_x"), SunState::Down),
        b("colors: *lightdarkdark_x")
    );
    assert_eq!(
        rewrite_line(&b("colors: *alight_lightish"), SunState::Down),
        b("colors: *alight_darkish")
    );
}

#[test]
fn rewrite_line_covers_whole_emitted_line() {
    // the re-synthesized line is exactly the matched reference
    assert_eq!(
        rewrite_line(&b("  colors: *alightb  "), SunState::Down),
        b("colors: *adarkb")
    );
}

#[test]
fn rewrite_document_preserves_line_count_and_others() {
    let doc = b("a: 1\ncolors: *mylight_theme\nb: 2\n");
    let out = rewrite_document(&doc, SunState::Down);
    let out_lines: Vec<&[u8]> = out.split(|&c| c == b'\n').collect();
    let in_lines: Vec<&[u8]> = doc.split(|&c| c == b'\n').collect();
    assert_eq!(out_lines.len(), in_lines.len());
    assert_eq!(out_lines[0], in_lines[0]);
    assert_eq!(out_lines[1], b"colors: *mydark_theme");
    assert_eq!(out_lines[2], in_lines[2]);
}

#[test]
fn rewrite_document_without_matches_is_unchanged() {
    let doc = b("a: 1\nb: 2\n");
    assert_eq!(rewrite_document(&doc, SunState::Down), doc);
    assert_eq!(rewrite_document(&doc, SunState::Up), doc);
}

#[test]
fn rewrite_document_is_idempotent() {
    let doc = b("a: 1\ncolors: *alight_lightish\nb: 2\ncolors: *xdarky\n");
    let once = rewrite_document(&doc, SunState::Down);
    let twice = rewrite_document(&once, SunState::Down);
    assert_eq!(twice, once);
    let once_up = rewrite_document(&doc, SunState::Up);
    let twice_up = rewrite_document(&once_up, SunState::Up);
    assert_eq!(twice_up, once_up);
}

#[test]
fn rewrite_document_normalizes_trailing_newline() {
    assert_eq!(rewrite_document(&b("x"), SunState::Down), b("x\n"));
    assert_eq!(rewrite_document(&b(""), SunState::Down), b("\n"));
    assert_eq!(rewrite_document(&b("x\n\ny\n"), SunState::Down), b("x\n\ny\n"));
}

#[test]
fn rewrite_already_current_mode_is_identity() {
    let doc = b("colors: *base_light_suffix\n");
    assert_eq!(rewrite_document(&doc, SunState::Up), doc);
}
