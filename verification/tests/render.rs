use quarkup::ast::{BlockNode, CellAlign, Document, InlineNode, LatticeCell, LatticeRow, ListItem, RowType};
use quarkup::defines::Defines;
use quarkup::html::{html_escape, Replies};
use quarkup::lexer::{Flavor, Lexer};
use quarkup::page::{get_image_data_url, mime_type, HtmlRenderer, ImageFile};
use quarkup::parser::Parser;
use std::collections::VecDeque;

const BARE: &str = "T={{title}}|A={{author}}|L={{lang}}|D={{description}}|K={{keywords}}|C={{copyright}}|{{content}}";

fn parse(source: &str) -> Document {
    Parser::new(Lexer::new(source), Defines::new()).parse()
}

fn page_with(source: &str, math: Vec<Option<&str>>) -> String {
    let doc = parse(source);
    let renderer = HtmlRenderer::new(Some(BARE.to_string()), false);
    let math: VecDeque<Option<String>> = math.into_iter().map(|m| m.map(|s| s.to_string())).collect();
    let mut replies = Replies::new(math);
    renderer.render_page(&doc, &Vec::new(), &mut replies)
}

fn content(source: &str) -> String {
    let page = page_with(source, vec![]);
    let at = page.find("|C=|").expect("bare template");
    page[at + 4..].to_string()
}

fn text(s: &str) -> InlineNode {
    InlineNode::Text(s.to_string())
}

fn cell(s: &str) -> LatticeCell {
    LatticeCell {
        content: vec![text(s)],
        colspan: 1,
        rowspan: 1,
        is_merged: false,
        is_colspan_marker: s == ">",
        is_rowspan_marker: s == "_",
        align: CellAlign::Left,
    }
}

#[test]
fn escape_writes_every_markup_character_as_an_entity() {
    assert_eq!(html_escape("<a href='x'>&\"</a>"), "&lt;a href=&#x27;x&#x27;&gt;&amp;&quot;&lt;/a&gt;");
}

#[test]
fn escape_keeps_plain_text() {
    assert_eq!(html_escape("plain text, 100% ünïcode"), "plain text, 100% ünïcode");
    assert_eq!(html_escape(""), "");
}

#[test]
fn default_metadata_fills_the_template() {
    assert_eq!(
        page_with("Hello\n", vec![]),
        "T=Untitled Quarkup Document|A=Anonymous|L=en|D=|K=|C=|<p>Hello</p>\n"
    );
}

#[test]
fn later_metadata_wins_and_unknown_keys_are_ignored() {
    let page = page_with(
        ".t title First\n.t title Second\n.t lang de\n.t keywords a b\n.t colour blue\n",
        vec![],
    );
    assert_eq!(page, "T=Second|A=Anonymous|L=de|D=|K=a b|C=|");
}

#[test]
fn empty_document_gives_an_empty_body() {
    let html = HtmlRenderer::new(None, false).render(&parse(""));
    assert!(html.contains("<body>\n\n</body>"));
    assert!(html.contains("<title>Untitled Quarkup Document</title>"));
}

#[test]
fn heading_level_counts_stacked_letters() {
    assert_eq!(content(".uuuuuuuuuu Deep\n"), "<h10>Deep</h10>\n");
}

#[test]
fn inline_math_uses_the_reply_sized_to_the_line() {
    let page = page_with("x .s math a^2.. y\n", vec![Some("<svg width=\"2ex\"></svg>")]);
    assert!(page.contains(
        "<span class=\"quarkup-math-inline\" style=\"display: inline-block; vertical-align: -0.15em;\"><svg style=\"height: 1.1em; width: auto;\" width=\"2ex\"></svg></span>"
    ));
}

#[test]
fn failed_math_shows_the_escaped_source() {
    let page = page_with("x .s math a<b.. y\n", vec![None]);
    assert!(page.contains("<span class=\"math-error\">[Math Error: a&lt;b]</span>"));
}

#[test]
fn math_block_keeps_the_svg_as_it_is() {
    let page = page_with(".s math\nx^2\n..\n", vec![Some("<svg width=\"3ex\"></svg>")]);
    assert!(page.contains(
        "<div class=\"quarkup-math-block\" style=\"text-align: center; margin: 1.5em 0;\"><svg width=\"3ex\"></svg></div>"
    ));
}

#[test]
fn code_listing_is_escaped_in_a_pre_named_by_its_language() {
    assert_eq!(
        content(".s rust\nif a < 2 && b > 'c' {}\n..\n"),
        "<pre class=\"language-rust\">if a &lt; 2 &amp;&amp; b &gt; 'c' {}</pre>\n"
    );
    assert_eq!(content(".s\nplain\n..\n"), "<pre>plain</pre>\n");
}

#[test]
fn image_without_caption_has_an_empty_alt() {
    assert_eq!(content(".g pics/a.png\n"), "<img src=\"pics/a.png\" alt=\"\">\n");
}

#[test]
fn image_with_caption_is_a_figure() {
    assert_eq!(
        content(".g a.png A nice view\n"),
        "<figure><img src=\"a.png\" alt=\"A nice view\"><figcaption>A nice view</figcaption></figure>\n"
    );
}

#[test]
fn monolithic_renderer_embeds_images_it_was_given() {
    let doc = parse(".g dot.png\n.g missing.gif\n");
    let images = vec![ImageFile { path: "dot.png".to_string(), bytes: vec![1, 2, 3] }];
    let html = HtmlRenderer::new(Some("{{content}}".to_string()), true).render_with_images(&doc, &images);
    assert_eq!(html, "<img src=\"data:image/png;base64,AQID\" alt=\"\">\n<img src=\"missing.gif\" alt=\"\">\n");
}

#[test]
fn renderer_that_is_not_monolithic_keeps_paths() {
    let doc = parse(".g dot.png\n");
    let images = vec![ImageFile { path: "dot.png".to_string(), bytes: vec![1, 2, 3] }];
    let html = HtmlRenderer::new(Some("{{content}}".to_string()), false).render_with_images(&doc, &images);
    assert_eq!(html, "<img src=\"dot.png\" alt=\"\">\n");
}

#[test]
fn data_url_encodes_base64_with_padding() {
    assert_eq!(get_image_data_url("a.png", &vec![1, 2, 3]), "data:image/png;base64,AQID");
    assert_eq!(get_image_data_url("a.png", &b"Ma".to_vec()), "data:image/png;base64,TWE=");
    assert_eq!(get_image_data_url("a.png", &b"M".to_vec()), "data:image/png;base64,TQ==");
    assert_eq!(get_image_data_url("a.png", &vec![]), "data:image/png;base64,");
    assert_eq!(get_image_data_url("a.png", &vec![0xfb, 0xff]), "data:image/png;base64,+/8=");
}

#[test]
fn data_url_media_type_follows_the_extension() {
    assert_eq!(get_image_data_url("x/photo.jpeg", &vec![0]), "data:image/jpeg;base64,AA==");
    assert_eq!(get_image_data_url("photo.jpg", &vec![0]), "data:image/jpeg;base64,AA==");
    assert_eq!(get_image_data_url("anim.gif", &vec![0]), "data:image/gif;base64,AA==");
    assert_eq!(get_image_data_url("logo.svg", &vec![0]), "data:image/svg+xml;base64,AA==");
    assert_eq!(get_image_data_url("pic.webp", &vec![0]), "data:image/webp;base64,AA==");
    assert_eq!(get_image_data_url("notes.txt", &vec![0]), "data:application/octet-stream;base64,AA==");
    assert_eq!(get_image_data_url(".png", &vec![0]), "data:application/octet-stream;base64,AA==");
    assert_eq!(get_image_data_url("noext", &vec![0]), "data:application/octet-stream;base64,AA==");
}

#[test]
fn mime_type_of_extensions() {
    assert_eq!(mime_type(&Some("png".to_string())), "image/png");
    assert_eq!(mime_type(&Some("PNG".to_string())), "application/octet-stream");
    assert_eq!(mime_type(&None), "application/octet-stream");
}

#[test]
fn lists_of_one_kind_in_a_row_are_grouped() {
    assert_eq!(content(".n a\n\n.n b\n"), "<ul>\n<li>a</li>\n<li>b</li>\n</ul>\n\n");
}

#[test]
fn nested_list_closes_every_level_it_opens() {
    assert_eq!(
        content(".e a\n.eee b\n"),
        "<ol>\n<li>a</li>\n<ol>\n<ol>\n<li>b</li>\n</ol>\n</ol>\n</ol>\n\n"
    );
}

#[test]
fn colspan_marker_merges_into_the_cell_on_its_left() {
    let html = content(".l\nA ; > ; B\n..\n");
    assert!(html.contains("    <td colspan=\"2\" >A </td>\n    <td > B</td>\n"));
    assert_eq!(html.matches("<td").count(), 2);
}

#[test]
fn lattice_renders_header_body_section_and_footer() {
    let html = content(".l\nh: A ; B\ns: Group\n1 ; 2\nf: x ; y\n..\n");
    assert_eq!(
        html,
        "<table class=\"quarkup-lattice\">\n  <thead>\n  <tr>\n    <th > A </th>\n    <th > B</th>\n  </tr>\n  </thead>\n  <tr class=\"section-row\">\n    <td colspan=\"2\"> Group</td>\n  </tr>\n  <tr>\n    <td >1 </td>\n    <td > 2</td>\n  </tr>\n  <tfoot>\n  <tr>\n    <td > x </td>\n    <td > y</td>\n  </tr>\n  </tfoot>\n</table>\n\n"
    );
}

#[test]
fn rowspan_marker_passes_over_section_rows() {
    let html = content(".l\nA ; B\ns: Cut\n_ ; C\n..\n");
    assert!(html.contains("<td rowspan=\"2\" >A </td>"));
    assert_eq!(html.matches("<td").count(), 4);
}

#[test]
fn cell_alignment_becomes_a_style() {
    let html = content(".l\nA ; .^ B ; .> C\n..\n");
    assert!(html.contains("<td >A </td>"));
    assert!(html.contains("<td style=\"text-align: center;\" >B</td>"));
    assert!(html.contains("<td style=\"text-align: right;\" >C</td>"));
}

#[test]
fn lattice_built_by_hand_renders_given_spans() {
    let rows = vec![LatticeRow {
        row_type: RowType::Body,
        cells: vec![LatticeCell { colspan: 3, ..cell("wide") }, cell("x")],
    }];
    let doc = Document { blocks: vec![BlockNode::Lattice(rows)] };
    let html = HtmlRenderer::new(Some("{{content}}".to_string()), false).render(&doc);
    assert!(html.contains("<td colspan=\"3\" >wide</td>"));
}

#[test]
fn conditional_blocks_are_joined_by_line_breaks() {
    let doc = Document {
        blocks: vec![BlockNode::Conditional(vec![
            BlockNode::Paragraph(vec![text("a")]),
            BlockNode::Paragraph(vec![text("b")]),
        ])],
    };
    let html = HtmlRenderer::new(Some("{{content}}".to_string()), false).render(&doc);
    assert_eq!(html, "<p>a</p>\n<p>b</p>\n");
}

#[test]
fn formatting_flavors_without_markup_pass_their_content_through() {
    let doc = Document {
        blocks: vec![BlockNode::Paragraph(vec![InlineNode::Formatted {
            flavor: Flavor::Top,
            content: vec![text("plain")],
        }])],
    };
    let html = HtmlRenderer::new(Some("{{content}}".to_string()), false).render(&doc);
    assert_eq!(html, "<p>plain</p>\n");
}

#[test]
fn list_items_built_by_hand_are_trimmed() {
    let doc = Document {
        blocks: vec![BlockNode::List {
            ordered: false,
            items: vec![ListItem { level: 1, content: vec![text("  spaced  ")] }],
        }],
    };
    let html = HtmlRenderer::new(Some("{{content}}".to_string()), false).render(&doc);
    assert_eq!(html, "<ul>\n<li>spaced</li>\n</ul>\n\n");
}

#[test]
fn placeholders_may_repeat_in_the_template() {
    let doc = parse(".t title Hi\n");
    let html = HtmlRenderer::new(Some("{{title}}/{{title}}".to_string()), false).render(&doc);
    assert_eq!(html, "Hi/Hi");
}

#[test]
fn code_listing_matches_the_readme_example() {
    let html = HtmlRenderer::new(Some("{{content}}".to_string()), false)
        .render(&parse(".s rust\nfn hello() {\n    println!(\"Hello, World!\");\n}\n..\n"));
    assert_eq!(
        html,
        "<pre class=\"language-rust\">fn hello() {\n    println!(\"Hello, World!\");\n}</pre>\n"
    );
}

#[test]
fn comment_like_lines_stay_in_a_code_listing() {
    let html = HtmlRenderer::new(Some("{{content}}".to_string()), false)
        .render(&parse(".s python\n# note\nx = 1\n..\n"));
    assert_eq!(html, "<pre class=\"language-python\"># note\nx = 1</pre>\n");
}

#[test]
fn header_row_at_the_end_closes_its_thead() {
    let html = content(".l\nh: A\n..\n");
    assert_eq!(html.matches("<thead>").count(), 1);
    assert_eq!(html.matches("</thead>").count(), 1);
    assert!(html.find("</thead>") < html.find("</table>"));
}

#[test]
fn list_inside_an_active_conditional_is_a_list() {
    let mut d = Defines::new();
    d.insert("on".to_string(), "true".to_string());
    let doc = Parser::new(Lexer::new(".b on\n.n item\n..\nafter\n"), d).parse();
    let html = HtmlRenderer::new(Some("{{content}}".to_string()), false).render(&doc);
    assert_eq!(html, "<ul>\n<li>item</li>\n</ul>\n\n<p>after</p>\n");
}

#[test]
fn open_inline_element_ends_with_its_line() {
    assert_eq!(content("a .c b\nc\n"), "<p>a <em>b</em></p>\n<p>c</p>\n");
}

#[test]
fn merged_row_keeps_its_width() {
    let html = content(".l\nh: Product ; Qty ; Price\nf: Total ; > ; .> 208.99\n..\n");
    assert!(html.contains("    <td colspan=\"2\" > Total </td>\n    <td style=\"text-align: right;\" >208.99</td>\n"));
    let html = content(".l\nA ; > ; >\n..\n");
    assert!(html.contains("<td colspan=\"3\" >A </td>"));
    assert_eq!(html.matches("<td").count(), 1);
}

#[test]
fn code_listing_keeps_tabs_and_unescapes_a_leading_annihilator() {
    assert_eq!(content(".s\n\t\\..x\n  a  b\n..\n"), "<pre>\t..x\n  a  b</pre>\n");
}
