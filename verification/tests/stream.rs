use novel_text::term::{Term, TermMap};
use novel_text::token::{Id, Token, TokenText};
use novel_text::tokenizer::{ParseContext, TextIterator};

fn chars(s: &str) -> Vec<char> {
    s.chars().collect()
}

fn sample_term(id: &str, body: &str) -> Term {
    Term::new(
        Id::new(id.to_string()),
        body.to_string(),
        String::new(),
        String::new(),
        false,
    )
}

fn context(terms: Vec<Term>) -> ParseContext {
    ParseContext::new(TermMap::new(terms))
}

fn tokenize(ctx: &ParseContext, input: &str) -> TokenText {
    ctx.tokenize_text(&chars(input))
}

fn span_text(t: &Token) -> String {
    t.span().body_string()
}

fn line_of(t: &Token) -> usize {
    t.span().position.line
}

fn byte_of(t: &Token) -> usize {
    t.span().position.byte_offset
}

/// The concatenation of the consumed spans must reproduce the input.
fn assert_covers(tokens: &TokenText, input: &str) {
    let mut s = String::new();
    for t in tokens.0.iter() {
        s.push_str(&span_text(t));
    }
    assert_eq!(s, input);
}

/// No two consecutive tokens may be plain text.
fn assert_no_adjacent_plaintext(tokens: &TokenText) {
    for w in tokens.0.windows(2) {
        assert!(!(matches!(w[0], Token::Plaintext { .. }) && matches!(w[1], Token::Plaintext { .. })));
    }
}

#[test]
fn newline_lf_is_one_token() {
    let ctx = context(vec![]);
    let tokens = tokenize(&ctx, "\n");
    assert_eq!(tokens.0.len(), 1);
    assert!(matches!(tokens.0[0], Token::NewLine { .. }));
    assert_eq!(span_text(&tokens.0[0]), "\n");
    assert_eq!((line_of(&tokens.0[0]), byte_of(&tokens.0[0])), (1, 0));
}

#[test]
fn newline_crlf_is_one_token() {
    let ctx = context(vec![]);
    let tokens = tokenize(&ctx, "\r\n");
    assert_eq!(tokens.0.len(), 1);
    assert!(matches!(tokens.0[0], Token::NewLine { .. }));
    assert_eq!(span_text(&tokens.0[0]), "\r\n");
}

#[test]
fn newline_bare_cr_is_one_token() {
    let ctx = context(vec![]);
    let tokens = tokenize(&ctx, "\r");
    assert_eq!(tokens.0.len(), 1);
    assert!(matches!(tokens.0[0], Token::NewLine { .. }));
    assert_eq!(span_text(&tokens.0[0]), "\r");
}

#[test]
fn newline_advances_line_number() {
    let ctx = context(vec![]);
    for (input, second_byte) in [("\nx", 1), ("\r\nx", 2), ("\rx", 1)] {
        let tokens = tokenize(&ctx, input);
        assert_eq!(tokens.0.len(), 2);
        assert!(matches!(tokens.0[0], Token::NewLine { .. }));
        assert_eq!(line_of(&tokens.0[1]), 2);
        assert_eq!(byte_of(&tokens.0[1]), second_byte);
    }
}

#[test]
fn cr_before_text_still_one_newline_each() {
    let ctx = context(vec![]);
    let tokens = tokenize(&ctx, "\r\r");
    assert_eq!(tokens.0.len(), 2);
    assert!(matches!(tokens.0[0], Token::NewLine { .. }));
    assert!(matches!(tokens.0[1], Token::NewLine { .. }));
    assert_eq!(line_of(&tokens.0[1]), 2);
}

#[test]
fn kanji_without_reading_is_plaintext() {
    let ctx = context(vec![]);
    let tokens = tokenize(&ctx, "漢字");
    assert_eq!(tokens.0.len(), 1);
    assert!(matches!(tokens.0[0], Token::Plaintext { .. }));
    assert_eq!(span_text(&tokens.0[0]), "漢字");
}

#[test]
fn kanji_ruby_half_parenthesis() {
    let ctx = context(vec![]);
    let tokens = tokenize(&ctx, "漢字(かんじ)");
    assert_eq!(tokens.0.len(), 1);
    match &tokens.0[0] {
        Token::KanjiRuby { span, body, ruby } => {
            assert_eq!(span.body_string(), "漢字(かんじ)");
            assert_eq!(body.body_string(), "漢字");
            assert_eq!((body.position.line, body.position.byte_offset), (1, 0));
            assert_eq!(ruby.body_string(), "かんじ");
            assert_eq!((ruby.position.line, ruby.position.byte_offset), (1, 7));
        },
        other => panic!("expected kanji ruby, got {:?}", other),
    }
}

#[test]
fn kanji_ruby_wide_parenthesis() {
    let ctx = context(vec![]);
    let tokens = tokenize(&ctx, "漢字（かんじ）");
    assert_eq!(tokens.0.len(), 1);
    match &tokens.0[0] {
        Token::KanjiRuby { body, ruby, .. } => {
            assert_eq!(body.body_string(), "漢字");
            assert_eq!(ruby.body_string(), "かんじ");
            assert_eq!((ruby.position.line, ruby.position.byte_offset), (1, 9));
        },
        other => panic!("expected kanji ruby, got {:?}", other),
    }
}

#[test]
fn kanji_ruby_angle_bracket() {
    let ctx = context(vec![]);
    let tokens = tokenize(&ctx, "穂積《ほづみ》しょうたろう");
    assert_eq!(tokens.0.len(), 2);
    match &tokens.0[0] {
        Token::KanjiRuby { body, ruby, .. } => {
            assert_eq!(body.body_string(), "穂積");
            assert_eq!(ruby.body_string(), "ほづみ");
            assert_eq!(ruby.position.byte_offset, 9);
        },
        other => panic!("expected kanji ruby, got {:?}", other),
    }
    assert_eq!(span_text(&tokens.0[1]), "しょうたろう");
    assert_eq!(byte_of(&tokens.0[1]), 21);
}

#[test]
fn kanji_ruby_body_over_ten_characters_degrades() {
    let ctx = context(vec![]);
    let input = "漢漢漢漢漢漢漢漢漢漢漢(かんじ)";
    let tokens = tokenize(&ctx, input);
    for t in tokens.0.iter() {
        assert!(!matches!(t, Token::KanjiRuby { .. }));
    }
    assert_eq!(tokens.0.len(), 1);
    assert!(matches!(tokens.0[0], Token::Plaintext { .. }));
    assert_covers(&tokens, input);
}

#[test]
fn kanji_ruby_ten_characters_is_accepted() {
    let ctx = context(vec![]);
    let input = "漢漢漢漢漢漢漢漢漢漢(かんじ)";
    let tokens = tokenize(&ctx, input);
    assert_eq!(tokens.0.len(), 1);
    assert!(matches!(tokens.0[0], Token::KanjiRuby { .. }));
}

#[test]
fn kanji_ruby_reading_over_bound_degrades() {
    let ctx = context(vec![]);
    let input = "漢(ああああああああああい)";
    let tokens = tokenize(&ctx, input);
    for t in tokens.0.iter() {
        assert!(!matches!(t, Token::KanjiRuby { .. }));
    }
    assert_covers(&tokens, input);
}

#[test]
fn kanji_ruby_counts_exclude_variation_selectors() {
    let ctx = context(vec![]);
    let body: String = "邊\u{e0104}".repeat(10);
    let input = format!("{}(なべなべなべなべなべ)", body);
    let tokens = tokenize(&ctx, &input);
    assert_eq!(tokens.0.len(), 1);
    match &tokens.0[0] {
        Token::KanjiRuby { body: b, ruby, .. } => {
            assert_eq!(b.body_string(), body);
            assert_eq!(ruby.body_string(), "なべなべなべなべなべ");
        },
        other => panic!("expected kanji ruby, got {:?}", other),
    }
}

#[test]
fn kanji_not_followed_by_reading_splits() {
    let ctx = context(vec![]);
    let tokens = tokenize(&ctx, "漢字|(かんじ)");
    assert_eq!(tokens.0.len(), 3);
    assert!(matches!(tokens.0[0], Token::Plaintext { .. }));
    assert_eq!(span_text(&tokens.0[0]), "漢字");
    assert!(matches!(tokens.0[1], Token::Ignore { .. }));
    assert_eq!(span_text(&tokens.0[1]), "|");
    assert!(matches!(tokens.0[2], Token::Plaintext { .. }));
    assert_eq!(span_text(&tokens.0[2]), "(かんじ)");
}

#[test]
fn directive_ruby_works() {
    let ctx = context(vec![]);
    let tokens = tokenize(&ctx, "|漢字(かんじ)");
    assert_eq!(tokens.0.len(), 1);
    match &tokens.0[0] {
        Token::Ruby { span, body, ruby } => {
            assert_eq!(span.body_string(), "|漢字(かんじ)");
            assert_eq!(body.body_string(), "漢字");
            assert_eq!((body.position.line, body.position.byte_offset), (1, 1));
            assert_eq!(ruby.body_string(), "かんじ");
            assert_eq!((ruby.position.line, ruby.position.byte_offset), (1, 8));
        },
        other => panic!("expected ruby, got {:?}", other),
    }
}

#[test]
fn directive_ruby_mixed_delimiters() {
    let ctx = context(vec![]);
    let tokens = tokenize(&ctx, "|ほげ（ふが)");
    assert_eq!(tokens.0.len(), 1);
    match &tokens.0[0] {
        Token::Ruby { body, ruby, .. } => {
            assert_eq!(body.body_string(), "ほげ");
            assert_eq!(ruby.body_string(), "ふが");
            assert_eq!(ruby.position.byte_offset, 10);
        },
        other => panic!("expected ruby, got {:?}", other),
    }
}

#[test]
fn directive_with_empty_body_is_ignored_marker() {
    let ctx = context(vec![]);
    let tokens = tokenize(&ctx, "|(かんじ)");
    assert_eq!(tokens.0.len(), 2);
    assert!(matches!(tokens.0[0], Token::Ignore { .. }));
    assert_eq!(span_text(&tokens.0[0]), "|");
    assert!(matches!(tokens.0[1], Token::Plaintext { .. }));
    assert_eq!(span_text(&tokens.0[1]), "(かんじ)");
    assert_eq!(byte_of(&tokens.0[1]), 1);
}

#[test]
fn wide_directive_with_empty_body_is_ignored_marker() {
    let ctx = context(vec![]);
    let tokens = tokenize(&ctx, "｜(かんじ)");
    assert_eq!(tokens.0.len(), 2);
    assert!(matches!(tokens.0[0], Token::Ignore { .. }));
    assert_eq!(span_text(&tokens.0[0]), "｜");
    assert_eq!(byte_of(&tokens.0[1]), 3);
}

#[test]
fn bare_directive_is_ignored_marker() {
    let ctx = context(vec![]);
    let tokens = tokenize(&ctx, "|穂積しょうたろう");
    assert_eq!(tokens.0.len(), 2);
    assert!(matches!(tokens.0[0], Token::Ignore { .. }));
    assert_eq!(span_text(&tokens.0[0]), "|");
    assert!(matches!(tokens.0[1], Token::Plaintext { .. }));
    assert_eq!(span_text(&tokens.0[1]), "穂積しょうたろう");
}

#[test]
fn directive_ruby_over_bound_demotes_marker_only() {
    let ctx = context(vec![]);
    let input = "|ほ(ああああああああああい)";
    let tokens = tokenize(&ctx, input);
    for t in tokens.0.iter() {
        assert!(!matches!(t, Token::Ruby { .. }));
    }
    assert_eq!(tokens.0.len(), 1);
    assert!(matches!(tokens.0[0], Token::Plaintext { .. }));
    assert_covers(&tokens, input);
}

#[test]
fn annotation_works() {
    let ctx = context(vec![]);
    let tokens = tokenize(&ctx, "|漢字$かんじ$");
    assert_eq!(tokens.0.len(), 1);
    match &tokens.0[0] {
        Token::Annotation { span, body, description } => {
            assert_eq!(span.body_string(), "|漢字$かんじ$");
            assert_eq!(body.body_string(), "漢字");
            assert_eq!((body.position.line, body.position.byte_offset), (1, 1));
            assert_eq!(description.0.len(), 1);
            assert_eq!(description.0[0].span().body_string(), "かんじ");
            assert_eq!(description.0[0].span().position.byte_offset, 8);
        },
        other => panic!("expected annotation, got {:?}", other),
    }
}

#[test]
fn annotation_body_may_hold_ruby_syntax() {
    let ctx = context(vec![]);
    let tokens = tokenize(&ctx, "|漢字(かんじ)$せつめい$");
    assert_eq!(tokens.0.len(), 1);
    match &tokens.0[0] {
        Token::Annotation { body, description, .. } => {
            assert_eq!(body.body_string(), "漢字(かんじ)");
            assert_eq!(description.0[0].span().body_string(), "せつめい");
            assert_eq!(description.0[0].span().position.byte_offset, 19);
        },
        other => panic!("expected annotation, got {:?}", other),
    }
}

#[test]
fn annotation_wide_start_marker() {
    let ctx = context(vec![]);
    let tokens = tokenize(&ctx, "|漢字＄かんじ$");
    assert_eq!(tokens.0.len(), 1);
    match &tokens.0[0] {
        Token::Annotation { body, description, .. } => {
            assert_eq!(body.body_string(), "漢字");
            assert_eq!(description.0[0].span().position.byte_offset, 10);
        },
        other => panic!("expected annotation, got {:?}", other),
    }
}

#[test]
fn annotation_with_empty_body_fails() {
    let ctx = context(vec![]);
    let tokens = tokenize(&ctx, "|$hoge$");
    assert!(tokens.0.iter().all(|t| !matches!(t, Token::Annotation { .. })));
    assert_eq!(tokens.0.len(), 2);
    assert!(matches!(tokens.0[0], Token::Ignore { .. }));
    assert_eq!(span_text(&tokens.0[1]), "$hoge$");
}

#[test]
fn annotation_description_is_tokenized() {
    let ctx = context(vec![]);
    let tokens = tokenize(&ctx, "|印$漢字(かんじ)です$");
    assert_eq!(tokens.0.len(), 1);
    match &tokens.0[0] {
        Token::Annotation { description, .. } => {
            assert_eq!(description.0.len(), 2);
            assert!(matches!(description.0[0], Token::KanjiRuby { .. }));
            assert_eq!(description.0[1].span().body_string(), "です");
        },
        other => panic!("expected annotation, got {:?}", other),
    }
}

#[test]
fn single_emphasis_markers_stay_plaintext() {
    let ctx = context(vec![]);
    let tokens = tokenize(&ctx, "《ほげ》");
    assert_eq!(tokens.0.len(), 1);
    assert!(matches!(tokens.0[0], Token::Plaintext { .. }));
    assert_eq!(span_text(&tokens.0[0]), "《ほげ》");
}

#[test]
fn doubled_emphasis_markers_make_emphasis() {
    let ctx = context(vec![]);
    let tokens = tokenize(&ctx, "《《ほげ》》");
    assert_eq!(tokens.0.len(), 1);
    match &tokens.0[0] {
        Token::EmphasisMark { span, body } => {
            assert_eq!(span.body_string(), "《《ほげ》》");
            assert_eq!(body.body_string(), "ほげ");
            assert_eq!((body.position.line, body.position.byte_offset), (1, 6));
        },
        other => panic!("expected emphasis, got {:?}", other),
    }
}

#[test]
fn emphasis_content_may_hold_single_marker() {
    let ctx = context(vec![]);
    let tokens = tokenize(&ctx, "《《《other傍点確認》》");
    assert_eq!(tokens.0.len(), 1);
    match &tokens.0[0] {
        Token::EmphasisMark { body, .. } => {
            assert_eq!(body.body_string(), "《other傍点確認");
        },
        other => panic!("expected emphasis, got {:?}", other),
    }
}

#[test]
fn unclosed_emphasis_stays_plaintext() {
    let ctx = context(vec![]);
    let tokens = tokenize(&ctx, "《《not傍点確認》");
    assert_eq!(tokens.0.len(), 1);
    assert!(matches!(tokens.0[0], Token::Plaintext { .. }));
}

#[test]
fn empty_emphasis_stays_plaintext() {
    let ctx = context(vec![]);
    let tokens = tokenize(&ctx, "《》《not傍点》は");
    assert_eq!(tokens.0.len(), 1);
    assert!(matches!(tokens.0[0], Token::Plaintext { .. }));
    assert_eq!(span_text(&tokens.0[0]), "《》《not傍点》は");
}

#[test]
fn space_run_is_one_token() {
    let ctx = context(vec![]);
    let tokens = tokenize(&ctx, "  スペース確認");
    assert_eq!(tokens.0.len(), 2);
    assert!(matches!(tokens.0[0], Token::Space { .. }));
    assert_eq!(span_text(&tokens.0[0]), "  ");
    assert_eq!(span_text(&tokens.0[1]), "スペース確認");
    assert_eq!(byte_of(&tokens.0[1]), 2);
}

#[test]
fn term_is_recognised_by_longest_match() {
    let ctx = context(vec![
        sample_term("id1", "穂積しょう"),
        sample_term("id2", "穂積"),
    ]);
    let tokens = tokenize(&ctx, "穂積しょう");
    assert_eq!(tokens.0.len(), 1);
    match &tokens.0[0] {
        Token::Term { span, term_id } => {
            assert_eq!(span.body_string(), "穂積しょう");
            assert_eq!(term_id.value, "id1");
        },
        other => panic!("expected term, got {:?}", other),
    }
}

#[test]
fn term_followed_by_plaintext() {
    let ctx = context(vec![sample_term("id1", "穂積しょう")]);
    let tokens = tokenize(&ctx, "穂積しょうたろう");
    assert_eq!(tokens.0.len(), 2);
    assert!(matches!(tokens.0[0], Token::Term { .. }));
    assert_eq!(span_text(&tokens.0[1]), "たろう");
    assert_eq!(byte_of(&tokens.0[1]), 15);
}

#[test]
fn other_term_does_not_match() {
    let ctx = context(vec![sample_term("id1", "その他用語")]);
    let tokens = tokenize(&ctx, "穂積しょう");
    assert_eq!(tokens.0.len(), 1);
    assert!(matches!(tokens.0[0], Token::Plaintext { .. }));
}

#[test]
fn term_after_newline_keeps_positions() {
    let ctx = context(vec![sample_term("term_id1", "穂積しょう")]);
    let tokens = tokenize(&ctx, "ほづみ\n穂積しょう");
    assert_eq!(tokens.0.len(), 3);
    assert!(matches!(tokens.0[0], Token::Plaintext { .. }));
    assert!(matches!(tokens.0[1], Token::NewLine { .. }));
    assert_eq!(byte_of(&tokens.0[1]), 9);
    match &tokens.0[2] {
        Token::Term { span, term_id } => {
            assert_eq!((span.position.line, span.position.byte_offset), (2, 10));
            assert_eq!(term_id.value, "term_id1");
        },
        other => panic!("expected term, got {:?}", other),
    }
}

#[test]
fn mixed_line_positions_match() {
    let ctx = context(vec![]);
    let tokens = tokenize(&ctx, "《》：ルビ\n（例）私《わたくし》は");
    assert_eq!(tokens.0.len(), 5);
    assert_eq!(span_text(&tokens.0[0]), "《》：ルビ");
    assert_eq!((line_of(&tokens.0[0]), byte_of(&tokens.0[0])), (1, 0));
    assert!(matches!(tokens.0[1], Token::NewLine { .. }));
    assert_eq!(byte_of(&tokens.0[1]), 15);
    assert_eq!(span_text(&tokens.0[2]), "（例）");
    assert_eq!((line_of(&tokens.0[2]), byte_of(&tokens.0[2])), (2, 16));
    match &tokens.0[3] {
        Token::KanjiRuby { body, ruby, .. } => {
            assert_eq!((body.position.line, body.position.byte_offset), (2, 25));
            assert_eq!((ruby.position.line, ruby.position.byte_offset), (2, 31));
        },
        other => panic!("expected kanji ruby, got {:?}", other),
    }
    assert_eq!(span_text(&tokens.0[4]), "は");
    assert_eq!((line_of(&tokens.0[4]), byte_of(&tokens.0[4])), (2, 46));
}

#[test]
fn totality_over_corpus() {
    let ctx = context(vec![sample_term("id1", "穂積しょう")]);
    let corpus = [
        "",
        "a",
        "|",
        "｜",
        "《",
        "穂積しょう\n\"穂積しょう\"",
        "なか漢字なか",
        "漢字漢字漢字漢字漢字字(かんじ)",
        "|穂積(ほづみ)しょうたろう",
        "|漢字$かんじ$ のこり",
        "《《強調》》と《ただの括弧》",
        "  \t　スペース\r\n次の行\rまた次",
        "１２３45六",
        "$だけ$",
        "\u{1f600}絵文字\u{e0104}",
        "\u{27ea}\u{27eb}",
        "ｱｲｳｴｵと、ｓｃｄ。",
    ];
    for input in corpus {
        let tokens = tokenize(&ctx, input);
        assert_covers(&tokens, input);
        assert_no_adjacent_plaintext(&tokens);
    }
}

#[test]
fn fallback_consumes_isolated_markers() {
    let ctx = context(vec![]);
    let tokens = tokenize(&ctx, "《");
    assert_eq!(tokens.0.len(), 1);
    assert!(matches!(tokens.0[0], Token::Plaintext { .. }));
    let tokens = tokenize(&ctx, "|");
    assert_eq!(tokens.0.len(), 1);
    assert!(matches!(tokens.0[0], Token::Ignore { .. }));
}

#[test]
fn tokenize_str_matches_tokenize_text() {
    let ctx = context(vec![sample_term("id1", "穂積しょう")]);
    let input = "穂積しょう 《《強調》》|漢字(かんじ)\nつぎ";
    let by_chars = ctx.tokenize_text(&chars(input));
    let by_str = ctx.tokenize_str(input);
    assert_eq!(by_chars, by_str);
    assert_covers(&by_str, input);
}

#[test]
fn empty_input_gives_no_tokens() {
    let ctx = context(vec![]);
    let tokens = tokenize(&ctx, "");
    assert_eq!(tokens.0.len(), 0);
}

#[test]
fn iterator_yields_tokens_lazily() {
    let ctx = context(vec![sample_term("id1", "穂積しょう")]);
    let mut it = TextIterator::new(ctx, chars("穂積しょう\nたろう"));
    let first = it.next().expect("first token");
    assert!(matches!(first, Token::Term { .. }));
    let second = it.next().expect("second token");
    assert!(matches!(second, Token::NewLine { .. }));
    let third = it.next().expect("third token");
    assert!(matches!(third, Token::Plaintext { .. }));
    assert_eq!(third.span().body_string(), "たろう");
    assert_eq!(third.span().position.line, 2);
    assert!(it.next().is_none());
    assert!(it.next().is_none());
}

#[test]
fn iterator_merges_adjacent_plaintext() {
    let ctx = context(vec![]);
    let mut it = TextIterator::new(ctx, chars("なか漢字なか"));
    let only = it.next().expect("one token");
    assert!(matches!(only, Token::Plaintext { .. }));
    assert_eq!(only.span().body_string(), "なか漢字なか");
    assert!(it.next().is_none());
}

#[test]
fn iterator_collect_matches_batch() {
    let ctx = context(vec![sample_term("id1", "穂積しょう")]);
    let input = "穂積しょう 《《強調》》|漢字(かんじ)";
    let batch = tokenize(&ctx, input);
    let mut it = TextIterator::new(ctx, chars(input));
    let collected = it.collect_text();
    assert_eq!(batch, collected);
}

#[test]
fn term_matches_after_other_tokens() {
    let ctx = context(vec![sample_term("id9", "用語")]);
    let tokens = tokenize(&ctx, " 用語です");
    assert_eq!(tokens.0.len(), 3);
    assert!(matches!(tokens.0[0], Token::Space { .. }));
    match &tokens.0[1] {
        Token::Term { span, term_id } => {
            assert_eq!(span.body_string(), "用語");
            assert_eq!(span.position.byte_offset, 1);
            assert_eq!(term_id.value, "id9");
        },
        other => panic!("expected term, got {:?}", other),
    }
    assert_eq!(span_text(&tokens.0[2]), "です");
}

#[test]
fn one_step_token_follows_priority() {
    let ctx = context(vec![sample_term("id1", "漢字")]);
    let input = chars("漢字(かんじ)");
    let pos = novel_text::token::Position::new(1, 0);
    let (tok, end) = ctx.token(&input, 0, pos);
    // the term rule comes before the kanji-ruby rule
    assert!(matches!(tok, Token::Term { .. }));
    assert_eq!(end, 2);
}
