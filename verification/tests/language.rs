use quarkup::compile;
use quarkup::defines::{evaluate_condition, split_define_list, Defines};
use quarkup::lexer::{Flavor, Lexer, Token};
use quarkup::parse_defines;

fn tokens(source: &str) -> Vec<Token> {
    let mut lexer = Lexer::new(source);
    let mut out = Vec::new();
    while let Some(t) = lexer.next() {
        out.push(t);
    }
    out
}

fn text(s: &str) -> Token {
    Token::Text(s.to_string())
}

fn chars(s: &str) -> Vec<char> {
    s.chars().collect()
}

fn entries(list: &[&str]) -> Vec<String> {
    list.iter().map(|s| s.to_string()).collect()
}

#[test]
fn quark_takes_the_space_that_ends_it() {
    assert_eq!(
        tokens(".nnn item"),
        vec![Token::Quark { flavor: Flavor::Neutrino, count: 3 }, text("item")]
    );
}

#[test]
fn quark_may_end_at_a_line_break_or_the_end() {
    assert_eq!(
        tokens(".m\n.c"),
        vec![
            Token::Quark { flavor: Flavor::Muon, count: 1 },
            Token::LineBreak,
            Token::Quark { flavor: Flavor::Charm, count: 1 }
        ]
    );
}

#[test]
fn dot_before_letters_without_space_is_text() {
    assert_eq!(
        tokens("e.g. file.txt"),
        vec![text("e"), text("."), text("g"), text("."), Token::Space, text("file"), text("."), text("txt")]
    );
}

#[test]
fn dot_before_a_letter_of_no_flavor_is_text() {
    assert_eq!(tokens(".x y"), vec![text("."), text("x"), Token::Space, text("y")]);
}

#[test]
fn runs_of_blanks_are_one_space() {
    assert_eq!(tokens("a \t b"), vec![text("a"), Token::Space, text("b")]);
}

#[test]
fn comment_is_only_skipped_at_a_line_start() {
    assert_eq!(tokens("a # b"), vec![text("a"), Token::Space, text("#"), Token::Space, text("b")]);
    assert_eq!(tokens("  // note\r\nkept"), vec![text("kept")]);
}

#[test]
fn negated_condition_holds_exactly_when_the_plain_one_fails() {
    let mut d = Defines::new();
    d.insert("target".to_string(), "web".to_string());
    d.insert("off".to_string(), "false".to_string());
    assert!(evaluate_condition(&d, &chars("target=web")));
    assert!(!evaluate_condition(&d, &chars("!target=web")));
    assert!(!evaluate_condition(&d, &chars("target=cli")));
    assert!(evaluate_condition(&d, &chars("!target=cli")));
    assert!(evaluate_condition(&d, &chars(" target ")));
    assert!(!evaluate_condition(&d, &chars("off")));
    assert!(evaluate_condition(&d, &chars("! off")));
    assert!(evaluate_condition(&d, &chars("target web")));
    assert!(!evaluate_condition(&d, &chars("missing")));
}

#[test]
fn bare_key_define_is_true() {
    let d = parse_defines(&entries(&["  debug  "]));
    assert_eq!(d.get(&chars("debug")), Some(&"true".to_string()));
}

#[test]
fn later_define_wins_and_blank_entries_are_skipped() {
    let d = parse_defines(&entries(&["a=1", "", " a = 2 ", "   ", "b=x=y"]));
    assert_eq!(d.get(&chars("a")), Some(&"2".to_string()));
    assert_eq!(d.get(&chars("b")), Some(&"x=y".to_string()));
    assert_eq!(d.get(&chars("")), None);
}

#[test]
fn define_list_splits_at_line_breaks_and_semicolons() {
    assert_eq!(split_define_list("a=1;b\nc"), entries(&["a=1", "b", "c"]));
    assert_eq!(split_define_list(""), entries(&[""]));
    assert_eq!(split_define_list(";"), entries(&["", ""]));
}

#[test]
fn compile_applies_the_define_list() {
    let src = ".b target=web\nWeb\n..\n.b debug\nDebug\n..\n";
    let html = compile(src, Some("{{content}}".to_string()), false, "target=web;debug");
    assert_eq!(html, "<p>Web</p>\n<p>Debug</p>\n");
    let html = compile(src, Some("{{content}}".to_string()), false, "");
    assert_eq!(html, "");
}

#[test]
fn compile_uses_the_default_template() {
    let html = compile(".t title Demo\nHi\n", None, false, "");
    assert!(html.starts_with("<!DOCTYPE html>"));
    assert!(html.contains("<title>Demo</title>"));
    assert!(html.contains("<body>\n<p>Hi</p>\n\n</body>"));
}

#[test]
fn inline_link_without_text_shows_its_url() {
    let html = compile("See .l https://a.b.. now\n", Some("{{content}}".to_string()), false, "");
    assert_eq!(html, "<p>See <a href=\"https://a.b\">https://a.b</a> now</p>\n");
}

#[test]
fn inline_conditional_keeps_surrounding_text() {
    let src = "A .b x|B.. C\n";
    assert_eq!(compile(src, Some("{{content}}".to_string()), false, "x"), "<p>A B C</p>\n");
    assert_eq!(compile(src, Some("{{content}}".to_string()), false, ""), "<p>A  C</p>\n");
}

#[test]
fn formula_is_typeset_or_reported() {
    let html = compile("x .s math a^2.. y\n", Some("{{content}}".to_string()), false, "");
    assert!(html.contains("<svg") || html.contains("[Math Error: a^2]"));
}

#[test]
fn token_stream_is_bounded_by_the_source_and_made_of_its_pieces() {
    let src = "Hi .uu a..b e.g. file.txt\n  # c\n.n x";
    let toks = tokens(src);
    assert!(toks.len() <= src.chars().count());
    for t in &toks {
        if let Token::Text(s) = t {
            assert!(!s.is_empty() && src.contains(s.as_str()));
            assert!(!s.contains(' ') && !s.contains('\n') && (s == "." || !s.contains('.')));
        }
    }
    let mut lexer = Lexer::new(src);
    while lexer.next().is_some() {}
    assert_eq!(lexer.next(), None);
}

#[test]
fn defines_do_not_change_a_source_without_conditionals() {
    let src = ".u Title\nText .c with.. .l https://x|link..\n.n item\n.t title T\n";
    let with = compile(src, Some("{{content}}".to_string()), false, "target=web;x=1");
    let without = compile(src, Some("{{content}}".to_string()), false, "");
    assert_eq!(with, without);
}
