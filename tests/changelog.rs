use changelog_news::changelog::{extract_changelog, extract_changes, ChangeBlock, MalformedInput};
use changelog_news::message::{format_message, render_block};

fn doc(lines: &[&str]) -> Vec<String> {
    lines.iter().map(|l| l.to_string()).collect()
}

fn entry(s: &str) -> ChangeBlock {
    ChangeBlock::Entry(s.to_string())
}

fn header(s: &str) -> ChangeBlock {
    ChangeBlock::Header(s.to_string())
}

fn rendered(blocks: &[ChangeBlock]) -> Vec<String> {
    blocks.iter().map(|b| render_block("## ", b)).collect()
}

#[test]
fn new_bullet_after_known_one() {
    let old = doc(&["# Changelog", "## [Unreleased]", "", "- fixed bug A", "", "## [0.1.0]", "- old"]);
    let new = doc(&[
        "# Changelog",
        "## [Unreleased]",
        "",
        "- fixed bug A",
        "- fixed bug B",
        "",
        "## [0.1.0]",
        "- old",
    ]);
    let r = extract_changes(&old, &new).unwrap();
    assert_eq!(rendered(&r), vec!["- fixed bug B".to_string()]);
}

#[test]
fn new_section_in_empty_unreleased() {
    let old = doc(&["## [Unreleased]", "", "## [0.1.0]"]);
    let new = doc(&["## [Unreleased]", "", "### Added", "- new feature X", "", "## [0.1.0]"]);
    let r = extract_changes(&old, &new).unwrap();
    assert_eq!(r, vec![header("Added"), entry("- new feature X")]);
    assert_eq!(rendered(&r), vec!["## Added".to_string(), "- new feature X".to_string()]);
}

#[test]
fn empty_section_is_suppressed() {
    let old = doc(&["## [Unreleased]", "", "## [0.1.0]"]);
    let new = doc(&["## [Unreleased]", "", "### Added", "", "## [0.1.0]", "- released"]);
    assert_eq!(extract_changes(&old, &new).unwrap(), vec![]);
}

#[test]
fn consecutive_empty_sections_collapse() {
    let old = doc(&["## [Unreleased]", "- kept", "## [0.1.0]"]);
    let new = doc(&[
        "## [Unreleased]",
        "### Added",
        "### Changed",
        "- kept",
        "### Fixed",
        "- crash on start",
        "### Removed",
        "## [0.1.0]",
    ]);
    let r = extract_changes(&old, &new).unwrap();
    assert_eq!(r, vec![header("Fixed"), entry("- crash on start")]);
}

#[test]
fn continuation_of_a_known_bullet_is_malformed() {
    let old = doc(&["## [Unreleased]", "- item one", "## [0.1.0]"]);
    let new = doc(&["## [Unreleased]", "- item one", "  continued text", "## [0.1.0]"]);
    assert_eq!(extract_changes(&old, &new), Err(MalformedInput::OrphanContinuation));
}

#[test]
fn continuation_merges_into_new_bullet() {
    let old = doc(&["## [Unreleased]", "", "## [0.1.0]"]);
    let new = doc(&["## [Unreleased]", "- item one", " continued text", " and more", "## [0.1.0]"]);
    let r = extract_changes(&old, &new).unwrap();
    assert_eq!(r, vec![entry("- item onecontinued textand more")]);
}

#[test]
fn continuation_drops_exactly_one_character() {
    let old = doc(&["## [Unreleased]"]);
    let new = doc(&["## [Unreleased]", "- item one", "  continued text"]);
    let r = extract_changes(&old, &new).unwrap();
    assert_eq!(r, vec![entry("- item one continued text")]);
}

#[test]
fn continuation_after_header_is_malformed() {
    let old = doc(&["## [Unreleased]"]);
    let new = doc(&["## [Unreleased]", "### Added", "wrapped", "## [0.1.0]"]);
    assert_eq!(extract_changes(&old, &new), Err(MalformedInput::OrphanContinuation));
}

#[test]
fn same_document_gives_nothing() {
    let d = doc(&[
        "# Changelog",
        "",
        "## [Unreleased]",
        "",
        "### Added",
        "- one",
        " wrapped",
        "",
        "### Fixed",
        "- two",
        "",
        "## [0.2.0]",
        "- three",
    ]);
    assert_eq!(extract_changes(&d, &d).unwrap(), vec![]);
}

#[test]
fn old_content_never_appears() {
    let old = doc(&["## [Unreleased]", "- only in old", "- shared", "## [0.1.0]"]);
    let new = doc(&["## [Unreleased]", "- shared", "- only in new", "## [0.1.0]"]);
    let r = extract_changes(&old, &new).unwrap();
    assert_eq!(r, vec![entry("- shared"), entry("- only in new")]);
    assert!(!r.contains(&entry("- only in old")));
}

#[test]
fn lines_after_the_released_header_are_ignored() {
    let old = doc(&["## [Unreleased]", "## [0.1.0]"]);
    let a = doc(&["## [Unreleased]", "- new", "## [0.1.0]", "- x", "### y"]);
    let b = doc(&["## [Unreleased]", "- new", "## [0.1.0]", "- other", "- lines"]);
    let ra = extract_changes(&old, &a).unwrap();
    assert_eq!(ra, vec![entry("- new")]);
    assert_eq!(ra, extract_changes(&old, &b).unwrap());
}

#[test]
fn missing_marker_is_malformed() {
    let with = doc(&["## [Unreleased]", "- a"]);
    let without = doc(&["## [0.1.0]", "- a"]);
    assert_eq!(extract_changes(&without, &with), Err(MalformedInput::MissingUnreleasedMarker));
    assert_eq!(extract_changes(&with, &without), Err(MalformedInput::MissingUnreleasedMarker));
    assert_eq!(extract_changes(&vec![], &with), Err(MalformedInput::MissingUnreleasedMarker));
}

#[test]
fn old_cursor_skips_headers_and_blanks() {
    let old = doc(&["## [Unreleased]", "", "### Added", "", "- a", "", "### Fixed", "- b", "## [0.1.0]"]);
    let new = doc(&[
        "## [Unreleased]",
        "### Added",
        "- a",
        "- a2",
        "### Fixed",
        "- b",
        "- b2",
        "## [0.1.0]",
    ]);
    let r = extract_changes(&old, &new).unwrap();
    assert_eq!(r, vec![header("Added"), entry("- a2"), header("Fixed"), entry("- b2")]);
}

#[test]
fn whole_texts_are_split_into_lines() {
    let old = "# Changelog\n\n## [Unreleased]\n\n- fixed bug A\n\n## [0.1.0]\n";
    let new = "# Changelog\n\n## [Unreleased]\n\n### Fixed\n- fixed bug A\n- fixed bug B\n\n## [0.1.0]\n";
    let r = extract_changelog(old, new).unwrap();
    assert_eq!(r, vec![header("Fixed"), entry("- fixed bug B")]);
    let msg = format_message("# Veloren News!", "## ", &r);
    assert_eq!(msg, "# Veloren News!\n\n## Fixed\n- fixed bug B");
}

#[test]
fn each_bullet_keeps_its_own_continuations() {
    let old = doc(&["## [Unreleased]", "- known", "## [0.1.0]"]);
    let new = doc(&[
        "## [Unreleased]",
        "- known",
        "### Added",
        "- a",
        " b",
        " c",
        "- d",
        " e",
        "## [0.1.0]",
    ]);
    let r = extract_changes(&old, &new).unwrap();
    assert_eq!(r, vec![header("Added"), entry("- abc"), entry("- de")]);
}
