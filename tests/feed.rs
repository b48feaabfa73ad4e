use changelog_news::changelog::{ChangeBlock, MalformedInput};
use changelog_news::feed::{blog_links, extract_new, feed_entries, feed_text, present_values};
use changelog_news::message::{append_feed, format_message, render_block};
use changelog_news::text::{chars_of, split_lines, starts_with};

fn strings(v: &[&str]) -> Vec<String> {
    v.iter().map(|s| s.to_string()).collect()
}

#[test]
fn entries_before_the_old_head() {
    let r = extract_new(&strings(&["url3"]), &strings(&["url5", "url4", "url3", "url2"])).unwrap();
    assert_eq!(r, strings(&["url5", "url4"]));
}

#[test]
fn only_the_old_head_counts() {
    let r = extract_new(&strings(&["url4", "url5"]), &strings(&["url5", "url4", "url3"])).unwrap();
    assert_eq!(r, strings(&["url5"]));
}

#[test]
fn unknown_head_gives_every_entry() {
    let r = extract_new(&strings(&["gone"]), &strings(&["a", "b"])).unwrap();
    assert_eq!(r, strings(&["a", "b"]));
}

#[test]
fn unchanged_feed_gives_nothing() {
    let r = extract_new(&strings(&["a", "b"]), &strings(&["a", "b"])).unwrap();
    assert!(r.is_empty());
}

#[test]
fn empty_old_feed_is_malformed() {
    assert_eq!(extract_new(&vec![], &strings(&["a"])), Err(MalformedInput::EmptyFeed));
}

#[test]
fn feed_text_round_trips_through_lines() {
    let text = feed_text(&strings(&["https://a/1", "https://a/2"]));
    assert_eq!(text, "https://a/1\nhttps://a/2\n");
    assert_eq!(split_lines(&text), strings(&["https://a/1", "https://a/2", ""]));
    assert_eq!(feed_entries(&text), strings(&["https://a/1", "https://a/2"]));
    assert_eq!(feed_text(&vec![]), "");
    assert_eq!(feed_entries(""), Vec::<String>::new());
}

#[test]
fn feed_entries_without_final_newline() {
    assert_eq!(feed_entries("a\nb"), strings(&["a", "b"]));
    assert_eq!(feed_entries("\n"), strings(&[""]));
}

#[test]
fn vanished_head_gives_no_empty_post() {
    let r = extract_new(&feed_entries("x\n"), &feed_entries("a\n")).unwrap();
    assert_eq!(r, strings(&["a"]));
}

#[test]
fn empty_stored_feed_is_malformed() {
    assert_eq!(
        extract_new(&feed_entries(""), &feed_entries("a\nb\n")),
        Err(MalformedInput::EmptyFeed)
    );
}

#[test]
fn message_examples_have_a_blank_line_after_the_title() {
    let mut blocks = vec![];
    append_feed(&mut blocks, "Blog post(s)", &strings(&["url5", "url4"]));
    let m = format_message("# Veloren News!", "## ", &blocks);
    assert_eq!(m, "# Veloren News!\n\n## Blog post(s)\n- url5\n- url4");
    assert_eq!(m.len(), 46);
}

#[test]
fn stored_feeds_compare_by_first_line() {
    let old = feed_entries("https://a/2\nhttps://a/1\n");
    let new = feed_entries("https://a/3\nhttps://a/2\nhttps://a/1\n");
    assert_eq!(extract_new(&old, &new).unwrap(), strings(&["https://a/3"]));
}

#[test]
fn split_lines_keeps_empty_pieces() {
    assert_eq!(split_lines(""), strings(&[""]));
    assert_eq!(split_lines("a\n\nb"), strings(&["a", "", "b"]));
}

#[test]
fn links_are_read_from_header_anchors() {
    let html = "<html><body>\
        <h2><a class=\"header-link\" href=\"/blog/3\">Three</a></h2>\
        <a class=\"other\" href=\"/elsewhere\">x</a>\
        <h2><a class=\"header-link\">no target</a></h2>\
        <h2><a class=\"header-link\" href=\"/blog/2\">Two</a></h2>\
        </body></html>";
    let links = blog_links(html).unwrap();
    assert_eq!(links, strings(&["/blog/3", "/blog/2"]));
}

#[test]
fn page_without_posts_has_no_links() {
    assert_eq!(blog_links("<p>nothing here</p>").unwrap(), Vec::<String>::new());
}

#[test]
fn present_values_skip_missing() {
    let v = vec![Some("a".to_string()), None, Some("b".to_string())];
    assert_eq!(present_values(&v), strings(&["a", "b"]));
}

#[test]
fn feed_section_is_appended_under_a_header() {
    let mut blocks = vec![ChangeBlock::Entry("- fixed".to_string())];
    append_feed(&mut blocks, "Blog post(s)", &strings(&["https://b/9"]));
    assert_eq!(
        blocks,
        vec![
            ChangeBlock::Entry("- fixed".to_string()),
            ChangeBlock::Header("Blog post(s)".to_string()),
            ChangeBlock::Entry("- https://b/9".to_string()),
        ]
    );
    assert_eq!(
        format_message("# Veloren News!", "## ", &blocks),
        "# Veloren News!\n\n- fixed\n## Blog post(s)\n- https://b/9"
    );
}

#[test]
fn no_posts_append_nothing() {
    let mut blocks = vec![];
    append_feed(&mut blocks, "Blog post(s)", &vec![]);
    assert!(blocks.is_empty());
}

#[test]
fn empty_message_is_just_the_title() {
    assert_eq!(format_message("# News", "## ", &vec![]), "# News");
}

#[test]
fn header_style_is_configurable() {
    let h = ChangeBlock::Header("Added".to_string());
    assert_eq!(render_block("### ", &h), "### Added");
    assert_eq!(render_block("**", &h), "**Added");
}

#[test]
fn prefixes_and_chars() {
    assert_eq!(chars_of("héllo"), vec!['h', 'é', 'l', 'l', 'o']);
    assert!(starts_with(&chars_of("### x"), &chars_of("## ")) == false);
    assert!(starts_with(&chars_of("## x"), &chars_of("## ")));
    assert!(!starts_with(&chars_of("#"), &chars_of("## ")));
}
