use novel_text::term::{Term, TermMap};
use novel_text::token::{Id, Position, Span, Token, TokenText};
use novel_text::tokenizer::ParseContext;

fn chars(s: &str) -> Vec<char> {
    s.chars().collect()
}

fn sample_term(id: &str, body: &str) -> Term {
    Term::new(
        Id::new(id.to_string()),
        body.to_string(),
        String::new(),
        String::new(),
        false,
    )
}

fn context(terms: Vec<Term>) -> ParseContext {
    ParseContext::new(TermMap::new(terms))
}

fn span_at(text: &str, line: usize, byte_offset: usize) -> Span {
    Span::new(chars(text), Position::new(line, byte_offset))
}

#[test]
fn kanji_ruby_renders_with_parentheses() {
    let t = Token::KanjiRuby {
        span: span_at("漢字(かんじ)", 1, 0),
        body: span_at("漢字", 1, 0),
        ruby: span_at("かんじ", 1, 7),
    };
    assert_eq!(TokenText::new(vec![t]).to_string(), "漢字(かんじ)");
}

#[test]
fn space_token_renders_verbatim() {
    let t = Token::Space { span: span_at("  ", 1, 0) };
    assert_eq!(TokenText::new(vec![t]).to_string(), "  ");
}

#[test]
fn ignore_token_renders_verbatim() {
    let t = Token::Ignore { span: span_at("|", 1, 0) };
    assert_eq!(TokenText::new(vec![t]).to_string(), "|");
}

#[test]
fn newline_token_renders_verbatim() {
    let t = Token::NewLine { span: span_at("\r\n", 1, 0) };
    assert_eq!(TokenText::new(vec![t]).to_string(), "\r\n");
}

#[test]
fn term_token_renders_its_body() {
    let t = Token::Term {
        span: span_at("ほげ", 1, 0),
        term_id: Id::new("term_id1".to_string()),
    };
    assert_eq!(TokenText::new(vec![t]).to_string(), "ほげ");
}

#[test]
fn ruby_token_renders_with_marker() {
    let t = Token::Ruby {
        span: span_at("|穂積(ほづみ)", 1, 0),
        body: span_at("穂積", 1, 1),
        ruby: span_at("ほづみ", 1, 8),
    };
    assert_eq!(TokenText::new(vec![t]).to_string(), "|穂積(ほづみ)");
}

#[test]
fn emphasis_token_renders_with_doubled_markers() {
    let t = Token::EmphasisMark {
        span: span_at("《《ほげ》》", 1, 0),
        body: span_at("ほげ", 1, 6),
    };
    assert_eq!(TokenText::new(vec![t]).to_string(), "《《ほげ》》");
}

#[test]
fn annotation_token_renders_description() {
    let inner = TokenText::new(vec![Token::Plaintext { span: span_at("かんじ", 1, 8) }]);
    let t = Token::Annotation {
        span: span_at("|漢字$かんじ$", 1, 0),
        body: span_at("漢字", 1, 1),
        description: inner,
    };
    assert_eq!(TokenText::new(vec![t]).to_string(), "|漢字$かんじ$");
}

#[test]
fn round_trip_canonical_corpus() {
    let ctx = context(vec![sample_term("id1", "穂積しょう")]);
    let corpus = [
        "穂積しょう",
        "|穂積(ほづみ)しょうたろう",
        "漢字(かんじ)と text",
        "|漢字$かんじ$",
        "《《強調》》と《ただの括弧》",
        "ある日の 事です。\nはい\r\nそう\rおわり",
        "  　\tスペース",
        "|(かんじ)",
        "なか漢字なか",
    ];
    for input in corpus {
        let tokens = ctx.tokenize_text(&chars(input));
        assert_eq!(tokens.to_string(), input, "round trip of {:?}", input);
    }
}

#[test]
fn round_trip_canonicalizes_delimiters() {
    let ctx = context(vec![]);
    let cases = [
        ("漢字（かんじ）", "漢字(かんじ)"),
        ("漢字《かんじ》", "漢字(かんじ)"),
        ("漢字⟪かんじ⟫", "漢字(かんじ)"),
        ("｜漢字（かんじ）", "|漢字(かんじ)"),
        ("|漢字＄せつ＄", "|漢字$せつ$"),
    ];
    for (input, canonical) in cases {
        let tokens = ctx.tokenize_text(&chars(input));
        assert_eq!(tokens.to_string(), canonical, "canonical form of {:?}", input);
    }
}

#[test]
fn span_accessors_work() {
    let sp = span_at("穂積", 2, 17);
    assert_eq!(sp.body_string(), "穂積");
    assert_eq!(sp.position.line, 2);
    assert_eq!(sp.position.byte_offset, 17);
    let t = Token::Plaintext { span: sp };
    assert_eq!(t.span().body_string(), "穂積");
}

#[test]
fn token_text_len_and_get_work() {
    let ctx = context(vec![]);
    let tokens = ctx.tokenize_text(&chars("ほげ\nふが"));
    assert_eq!(tokens.len(), 3);
    assert!(matches!(tokens.get(1), Token::NewLine { .. }));
}
