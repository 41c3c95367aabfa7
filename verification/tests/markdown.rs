use crdt_text::doc::Doc;
use crdt_text::render::parse_markdown;

#[test]
fn heading_renders_to_html() {
    assert_eq!(parse_markdown("# Hi"), "<h1>Hi</h1>\n");
}

#[test]
fn paragraph_and_emphasis_render() {
    assert_eq!(
        parse_markdown("hello *world*"),
        "<p>hello <em>world</em></p>\n"
    );
}

#[test]
fn empty_markdown_renders_empty() {
    assert_eq!(parse_markdown(""), "");
}

#[test]
fn document_text_renders_to_html() {
    let mut d = Doc::new(1);
    let text: Vec<char> = "# Title".chars().collect();
    d.insert(0, &text).unwrap();
    let markdown: String = d.read().into_iter().collect();
    assert_eq!(parse_markdown(&markdown), "<h1>Title</h1>\n");
}
