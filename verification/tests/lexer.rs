use drip::frontend::lexer::{Keyword, LexError, Lexer, Span, Token, TokenKind};
use drip::frontend::{SourceFile, SourceFileOrigin};

fn file(text: &str) -> SourceFile {
    SourceFile { contents: text.to_string(), origin: SourceFileOrigin::Memory }
}

fn all(text: &str) -> Result<Vec<Token>, LexError> {
    let source = file(text);
    let mut lexer = Lexer::new(&source);
    let mut out = vec![];
    loop {
        match lexer.next() {
            Ok(Some(token)) => out.push(token),
            Ok(None) => return Ok(out),
            Err(e) => return Err(e),
        }
    }
}

#[test]
fn spans_merge() {
    assert_eq!(Span::merge(Span::new(2, 4), Span::new(7, 9)), Span::new(2, 9));
    assert_eq!(Span::new(1, 3).start, 1);
    assert_eq!(Span::new(1, 3).end, 3);
}

#[test]
fn tokens_select_their_text() {
    let text = "fn main() { let x = 1; }";
    let tokens = all(text).unwrap();
    let pieces: Vec<&str> = tokens.iter().map(|t| &text[t.span.start..t.span.end]).collect();
    assert_eq!(
        pieces,
        vec!["fn", "main", "(", ")", "{", "let", "x", "=", "1", ";", "}"]
    );
    assert!(matches!(tokens[0].kind, TokenKind::Keyword(Keyword::Fn)));
}

#[test]
fn tokens_come_in_order() {
    let tokens = all("a + b // tail\n c").unwrap();
    for pair in tokens.windows(2) {
        assert!(pair[0].span.end <= pair[1].span.start);
    }
    assert_eq!(tokens.len(), 4);
}

#[test]
fn empty_text_has_no_tokens() {
    assert!(all("").unwrap().is_empty());
    assert!(all("  \n\t ").unwrap().is_empty());
    let source = file("");
    assert!(Lexer::new(&source).is_eof());
}

#[test]
fn peeking_keeps_tokens() {
    let source = file("a b c");
    let mut lexer = Lexer::new(&source);
    let first = lexer.peek().unwrap().unwrap();
    let third = lexer.peek_nth(2).unwrap().unwrap();
    assert_eq!(third.span, Span::new(4, 5));
    assert!(lexer.peek_nth(3).unwrap().is_none());
    assert_eq!(lexer.next().unwrap().unwrap().span, first.span);
    assert_eq!(lexer.next().unwrap().unwrap().span, Span::new(2, 3));
}

#[test]
fn unknown_character_is_refused() {
    let e = all("a $").unwrap_err();
    assert!(!e.message().is_empty());
    let report = e.report(&SourceFileOrigin::Memory);
    assert!(report.contains("<memory>:1:"));
    assert!(report.contains(&e.message()));
}

#[test]
fn lines_are_counted() {
    let source = file("a\n  b");
    let mut lexer = Lexer::new(&source);
    lexer.next().unwrap();
    lexer.next().unwrap();
    assert_eq!(lexer.line_number(), 1);
    assert_eq!(lexer.column(), 3);
}

#[test]
fn only_tabs_between_tokens_stall() {
    let quoted = file("let // \u{b}\n \"\u{b}\"");
    let mut lexer = Lexer::new(&quoted);
    for _ in 0..2 {
        assert!(!lexer.stalls());
        assert!(lexer.next().unwrap().is_some());
    }
    assert!(!lexer.stalls());
    assert!(lexer.next().unwrap().is_none());

    let bare = file("let // note\n \u{b}");
    let mut lexer = Lexer::new(&bare);
    assert!(!lexer.stalls());
    assert!(lexer.next().unwrap().is_some());
    assert!(lexer.stalls());
}
