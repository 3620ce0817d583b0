use quarkup::lexer::{Flavor, Lexer, Token};

fn text(s: &str) -> Token {
    Token::Text(s.to_string())
}

#[test]
fn recognizes_a_quark_by_dot_letters_space() {
    let mut lexer = Lexer::new(".uu Heading");
    assert_eq!(
        lexer.next(),
        Some(Token::Quark {
            flavor: Flavor::Up,
            count: 2
        })
    );
    assert_eq!(lexer.next(), Some(text("Heading")));
    assert_eq!(lexer.next(), None);
}

#[test]
fn recognizes_the_annihilator() {
    let mut lexer = Lexer::new("..");
    assert_eq!(lexer.next(), Some(Token::Annihilator));
    assert_eq!(lexer.next(), None);
}

#[test]
fn skips_hash_and_slash_comment_lines() {
    let mut lexer = Lexer::new("# a comment\nkept");
    assert_eq!(lexer.next(), Some(text("kept")));
    assert_eq!(lexer.next(), None);
}
