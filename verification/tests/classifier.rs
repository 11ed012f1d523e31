use novel_text::character::{
    is_able_to_annotation, is_able_to_annotation_body, is_able_to_emphasis_mark, is_able_to_ruby,
    is_able_to_ruby_body, is_able_to_term, is_any_newline, is_end_annotation, is_end_kanji_ruby,
    is_end_ruby, is_end_term, is_half_disit, is_half_katakana, is_hiragana, is_kanji,
    is_kanji_extend, is_kanji_related, is_kanji_variation_selector, is_katakana, is_plaintext,
    is_punctuation, is_space, is_start_annotation, is_start_directive, is_start_emphasis_mark, is_end_emphasis_mark,
    is_start_kanji_ruby, is_start_link_annotation, is_start_ruby, is_start_term, is_wide_alphabetic,
    is_wide_disit, is_wide_half_alphabetic, is_wide_half_disit, wide_half_disit_char_to_disit,
};

#[test]
fn is_space_works() {
    assert!(is_space(' '));
    assert!(is_space('　'));
    assert!(is_space('\t'));
    assert!(!is_space('a'));
    assert!(!is_space('0'));
    assert!(!is_space('あ'));
    assert!(!is_space('\n'));
}

#[test]
fn is_start_directive_works() {
    assert!(is_start_directive('|'));
    assert!(is_start_directive('｜'));
    assert!(!is_start_directive('a'));
    assert!(!is_start_directive('＄'));
}

#[test]
fn annotation_markers_work() {
    assert!(is_start_annotation('$'));
    assert!(is_start_annotation('＄'));
    assert!(is_end_annotation('$'));
    assert!(is_end_annotation('＄'));
    assert!(!is_start_annotation('|'));
    assert!(!is_end_annotation('0'));
}

#[test]
fn ruby_delimiters_work() {
    assert!(is_start_ruby('《'));
    assert!(is_start_ruby('⟪'));
    assert!(is_start_ruby('('));
    assert!(is_start_ruby('（'));
    assert!(!is_start_ruby('》'));
    assert!(is_end_ruby('》'));
    assert!(is_end_ruby('⟫'));
    assert!(is_end_ruby(')'));
    assert!(is_end_ruby('）'));
    assert!(!is_end_ruby('《'));
}

#[test]
fn kanji_ruby_delimiters_are_parentheses_only() {
    assert!(is_start_kanji_ruby('('));
    assert!(is_start_kanji_ruby('（'));
    assert!(!is_start_kanji_ruby('《'));
    assert!(is_end_kanji_ruby(')'));
    assert!(is_end_kanji_ruby('）'));
    assert!(!is_end_kanji_ruby('》'));
}

#[test]
fn emphasis_markers_work() {
    assert!(is_start_emphasis_mark('《'));
    assert!(!is_start_emphasis_mark('('));
    assert!(is_end_emphasis_mark('》'));
    assert!(!is_end_emphasis_mark(')'));
    assert!(is_able_to_emphasis_mark('《'));
    assert!(!is_able_to_emphasis_mark('》'));
    assert!(!is_able_to_emphasis_mark('\n'));
}

#[test]
fn term_quotes_work() {
    assert!(is_start_term('"'));
    assert!(is_end_term('"'));
    assert!(!is_start_term('\''));
    assert!(is_able_to_term('あ'));
    assert!(!is_able_to_term('"'));
    assert!(!is_able_to_term('\n'));
}

#[test]
fn is_kanji_works() {
    assert!(is_kanji('漢'));
    assert!(is_kanji('塡'));
    assert!(is_kanji('邊'));
    assert!(!is_kanji('('));
    assert!(!is_kanji('あ'));
    assert!(!is_kanji('ア'));
    assert!(!is_kanji('a'));
}

#[test]
fn is_kanji_extend_works() {
    assert!(is_kanji_extend('𠅘'));
    assert!(is_kanji_extend('㐀'));
    assert!(!is_kanji_extend('あ'));
}

#[test]
fn variation_selectors_work() {
    assert!(is_kanji_variation_selector('\u{e0100}'));
    assert!(is_kanji_variation_selector('\u{e0104}'));
    assert!(is_kanji_variation_selector('\u{e01ef}'));
    assert!(!is_kanji_variation_selector('漢'));
    assert!(is_kanji_related('漢'));
    assert!(is_kanji_related('𠅘'));
    assert!(is_kanji_related('\u{e0104}'));
    assert!(!is_kanji_related('あ'));
}

#[test]
fn kana_classes_work() {
    assert!(is_hiragana('あ'));
    assert!(!is_hiragana('ア'));
    assert!(!is_hiragana('漢'));
    assert!(is_katakana('ア'));
    assert!(!is_katakana('あ'));
    assert!(is_half_katakana('ｱ'));
    assert!(is_half_katakana('ｦ'));
    assert!(is_half_katakana('ﾝ'));
    assert!(!is_half_katakana('ア'));
}

#[test]
fn alphabetic_classes_work() {
    assert!(is_wide_alphabetic('ａ'));
    assert!(is_wide_alphabetic('Ｚ'));
    assert!(!is_wide_alphabetic('a'));
    assert!(is_wide_half_alphabetic('a'));
    assert!(is_wide_half_alphabetic('Z'));
    assert!(is_wide_half_alphabetic('ｚ'));
    assert!(!is_wide_half_alphabetic('0'));
}

#[test]
fn digit_classes_work() {
    assert!(is_wide_disit('０'));
    assert!(is_wide_disit('９'));
    assert!(!is_wide_disit('0'));
    assert!(is_half_disit('0'));
    assert!(is_half_disit('9'));
    assert!(!is_half_disit('９'));
    assert!(is_wide_half_disit('0'));
    assert!(is_wide_half_disit('９'));
    assert!(!is_wide_half_disit('a'));
}

#[test]
fn wide_half_disit_char_to_disit_works() {
    assert_eq!(wide_half_disit_char_to_disit('０'), Some(0));
    assert_eq!(wide_half_disit_char_to_disit('１'), Some(1));
    assert_eq!(wide_half_disit_char_to_disit('９'), Some(9));
    assert_eq!(wide_half_disit_char_to_disit('0'), Some(0));
    assert_eq!(wide_half_disit_char_to_disit('9'), Some(9));
    assert_eq!(wide_half_disit_char_to_disit('h'), None);
}

#[test]
fn punctuation_and_link_markers_work() {
    assert!(is_punctuation('、'));
    assert!(is_punctuation('。'));
    assert!(!is_punctuation('.'));
    assert!(is_start_link_annotation('*'));
    assert!(is_start_link_annotation('＊'));
    assert!(!is_start_link_annotation('+'));
}

#[test]
fn newline_class_works() {
    assert!(is_any_newline('\n'));
    assert!(is_any_newline('\r'));
    assert!(!is_any_newline('\t'));
}

#[test]
fn ruby_content_classes_work() {
    assert!(is_able_to_ruby('\t'));
    assert!(is_able_to_ruby('《'));
    assert!(!is_able_to_ruby('》'));
    assert!(!is_able_to_ruby(')'));
    assert!(!is_able_to_ruby('\n'));
    assert!(is_able_to_ruby_body('\t'));
    assert!(!is_able_to_ruby_body('('));
    assert!(!is_able_to_ruby_body('（'));
    assert!(!is_able_to_ruby_body('\n'));
}

#[test]
fn annotation_content_classes_work() {
    assert!(is_able_to_annotation('あ'));
    assert!(!is_able_to_annotation('$'));
    assert!(!is_able_to_annotation('\n'));
    assert!(is_able_to_annotation_body('あ'));
    assert!(is_able_to_annotation_body('('));
    assert!(!is_able_to_annotation_body('$'));
    assert!(!is_able_to_annotation_body('|'));
    assert!(!is_able_to_annotation_body('\n'));
}

#[test]
fn is_plaintext_works() {
    assert!(is_plaintext('a'));
    assert!(is_plaintext('《'));
    assert!(is_plaintext('"'));
    assert!(is_plaintext('あ'));
    assert!(!is_plaintext('|'));
    assert!(!is_plaintext('｜'));
    assert!(!is_plaintext(' '));
    assert!(!is_plaintext('\n'));
    assert!(!is_plaintext('漢'));
    assert!(!is_plaintext('𠅘'));
}
