//! Character classification for the markup tokenizer.
//!
//! Every predicate is a pure, stateless function of a single Unicode
//! scalar value. Each executable predicate has a spec twin that states
//! its meaning exactly, so contracts elsewhere can speak of character
//! classes directly.

use vstd::prelude::*;

verus! {

/// Half-width space, tab, or ideographic space (U+3000).
pub open spec fn spec_is_space(c: char) -> bool {
    c == ' ' || c == '\t' || c == '\u{3000}'
}

#[verifier::when_used_as_spec(spec_is_space)]
pub fn is_space(c: char) -> (r: bool)
    ensures
        r == spec_is_space(c),
{
    c == ' ' || c == '\t' || c == '\u{3000}'
}

/// Directive marker: half-width or full-width pipe.
pub open spec fn spec_is_start_directive(c: char) -> bool {
    c == '|' || c == '\u{ff5c}'
}

#[verifier::when_used_as_spec(spec_is_start_directive)]
pub fn is_start_directive(c: char) -> (r: bool)
    ensures
        r == spec_is_start_directive(c),
{
    c == '|' || c == '\u{ff5c}'
}

/// Annotation opening marker: half-width or full-width dollar sign.
pub open spec fn spec_is_start_annotation(c: char) -> bool {
    c == '$' || c == '\u{ff04}'
}

#[verifier::when_used_as_spec(spec_is_start_annotation)]
pub fn is_start_annotation(c: char) -> (r: bool)
    ensures
        r == spec_is_start_annotation(c),
{
    c == '$' || c == '\u{ff04}'
}

/// Annotation closing marker: the same pair as the opening marker.
pub open spec fn spec_is_end_annotation(c: char) -> bool {
    c == '$' || c == '\u{ff04}'
}

#[verifier::when_used_as_spec(spec_is_end_annotation)]
pub fn is_end_annotation(c: char) -> (r: bool)
    ensures
        r == spec_is_end_annotation(c),
{
    c == '$' || c == '\u{ff04}'
}

/// Ruby opening delimiter: double angle bracket, mathematical double
/// angle bracket, half-width or full-width parenthesis.
pub open spec fn spec_is_start_ruby(c: char) -> bool {
    c == '\u{300a}' || c == '\u{27ea}' || c == '(' || c == '\u{ff08}'
}

#[verifier::when_used_as_spec(spec_is_start_ruby)]
pub fn is_start_ruby(c: char) -> (r: bool)
    ensures
        r == spec_is_start_ruby(c),
{
    c == '\u{300a}' || c == '\u{27ea}' || c == '(' || c == '\u{ff08}'
}

/// Ruby closing delimiter, matching the opening set.
pub open spec fn spec_is_end_ruby(c: char) -> bool {
    c == '\u{300b}' || c == '\u{27eb}' || c == ')' || c == '\u{ff09}'
}

#[verifier::when_used_as_spec(spec_is_end_ruby)]
pub fn is_end_ruby(c: char) -> (r: bool)
    ensures
        r == spec_is_end_ruby(c),
{
    c == '\u{300b}' || c == '\u{27eb}' || c == ')' || c == '\u{ff09}'
}

/// Parenthesis style accepted for an implicit kanji ruby reading.
pub open spec fn spec_is_start_kanji_ruby(c: char) -> bool {
    c == '(' || c == '\u{ff08}'
}

#[verifier::when_used_as_spec(spec_is_start_kanji_ruby)]
pub fn is_start_kanji_ruby(c: char) -> (r: bool)
    ensures
        r == spec_is_start_kanji_ruby(c),
{
    c == '(' || c == '\u{ff08}'
}

/// Closing parenthesis style for an implicit kanji ruby reading.
pub open spec fn spec_is_end_kanji_ruby(c: char) -> bool {
    c == ')' || c == '\u{ff09}'
}

#[verifier::when_used_as_spec(spec_is_end_kanji_ruby)]
pub fn is_end_kanji_ruby(c: char) -> (r: bool)
    ensures
        r == spec_is_end_kanji_ruby(c),
{
    c == ')' || c == '\u{ff09}'
}

/// Emphasis opening marker; emphasis requires it doubled.
pub open spec fn spec_is_start_emphasis_mark(c: char) -> bool {
    c == '\u{300a}'
}

#[verifier::when_used_as_spec(spec_is_start_emphasis_mark)]
pub fn is_start_emphasis_mark(c: char) -> (r: bool)
    ensures
        r == spec_is_start_emphasis_mark(c),
{
    c == '\u{300a}'
}

/// Emphasis closing marker; emphasis requires it doubled.
pub open spec fn spec_is_end_emphasis_mark(c: char) -> bool {
    c == '\u{300b}'
}

#[verifier::when_used_as_spec(spec_is_end_emphasis_mark)]
pub fn is_end_emphasis_mark(c: char) -> (r: bool)
    ensures
        r == spec_is_end_emphasis_mark(c),
{
    c == '\u{300b}'
}

/// Term quote opening marker: half-width or full-width double quote.
pub open spec fn spec_is_start_term(c: char) -> bool {
    c == '"' || c == '\u{ff02}'
}

#[verifier::when_used_as_spec(spec_is_start_term)]
pub fn is_start_term(c: char) -> (r: bool)
    ensures
        r == spec_is_start_term(c),
{
    c == '"' || c == '\u{ff02}'
}

/// Term quote closing marker: the same pair as the opening marker.
pub open spec fn spec_is_end_term(c: char) -> bool {
    c == '"' || c == '\u{ff02}'
}

#[verifier::when_used_as_spec(spec_is_end_term)]
pub fn is_end_term(c: char) -> (r: bool)
    ensures
        r == spec_is_end_term(c),
{
    c == '"' || c == '\u{ff02}'
}

/// CJK kanji: the unified ideograph block and the compatibility block.
pub open spec fn spec_is_kanji(c: char) -> bool {
    (0x4e00 <= c as u32 && c as u32 <= 0x9ffc) || (0xf900 <= c as u32 && c as u32 <= 0xfaff)
}

#[verifier::when_used_as_spec(spec_is_kanji)]
pub fn is_kanji(c: char) -> (r: bool)
    ensures
        r == spec_is_kanji(c),
{
    let u = c as u32;
    (0x4e00 <= u && u <= 0x9ffc) || (0xf900 <= u && u <= 0xfaff)
}

/// Extended kanji: the unified ideograph extension blocks A through G.
pub open spec fn spec_is_kanji_extend(c: char) -> bool {
    let u = c as u32;
    (0x3400 <= u && u <= 0x4dbf) || (0x20000 <= u && u <= 0x2a6dd) || (0x2a700 <= u && u
        <= 0x2b734) || (0x2b740 <= u && u <= 0x2b81d) || (0x2b820 <= u && u <= 0x2cea1) || (0x2ceb0
        <= u && u <= 0x2ebe0) || (0x30000 <= u && u <= 0x3134a)
}

#[verifier::when_used_as_spec(spec_is_kanji_extend)]
pub fn is_kanji_extend(c: char) -> (r: bool)
    ensures
        r == spec_is_kanji_extend(c),
{
    let u = c as u32;
    (0x3400 <= u && u <= 0x4dbf) || (0x20000 <= u && u <= 0x2a6dd) || (0x2a700 <= u && u
        <= 0x2b734) || (0x2b740 <= u && u <= 0x2b81d) || (0x2b820 <= u && u <= 0x2cea1) || (0x2ceb0
        <= u && u <= 0x2ebe0) || (0x30000 <= u && u <= 0x3134a)
}

/// Variation selector attached to a preceding kanji; such code points
/// are excluded from count-based size checks.
pub open spec fn spec_is_kanji_variation_selector(c: char) -> bool {
    0xe0100 <= c as u32 && c as u32 <= 0xe01ef
}

#[verifier::when_used_as_spec(spec_is_kanji_variation_selector)]
pub fn is_kanji_variation_selector(c: char) -> (r: bool)
    ensures
        r == spec_is_kanji_variation_selector(c),
{
    let u = c as u32;
    0xe0100 <= u && u <= 0xe01ef
}

/// Any character treated as part of a kanji run: kanji, extended
/// kanji, or a trailing variation selector.
pub open spec fn spec_is_kanji_related(c: char) -> bool {
    spec_is_kanji(c) || spec_is_kanji_extend(c) || spec_is_kanji_variation_selector(c)
}

#[verifier::when_used_as_spec(spec_is_kanji_related)]
pub fn is_kanji_related(c: char) -> (r: bool)
    ensures
        r == spec_is_kanji_related(c),
{
    is_kanji(c) || is_kanji_extend(c) || is_kanji_variation_selector(c)
}

/// Hiragana block.
pub open spec fn spec_is_hiragana(c: char) -> bool {
    0x3041 <= c as u32 && c as u32 <= 0x309f
}

#[verifier::when_used_as_spec(spec_is_hiragana)]
pub fn is_hiragana(c: char) -> (r: bool)
    ensures
        r == spec_is_hiragana(c),
{
    let u = c as u32;
    0x3041 <= u && u <= 0x309f
}

/// Katakana block.
pub open spec fn spec_is_katakana(c: char) -> bool {
    0x30a0 <= c as u32 && c as u32 <= 0x30ff
}

#[verifier::when_used_as_spec(spec_is_katakana)]
pub fn is_katakana(c: char) -> (r: bool)
    ensures
        r == spec_is_katakana(c),
{
    let u = c as u32;
    0x30a0 <= u && u <= 0x30ff
}

/// Half-width katakana: the contiguous run from U+FF66 to U+FF9D.
pub open spec fn spec_is_half_katakana(c: char) -> bool {
    0xff66 <= c as u32 && c as u32 <= 0xff9d
}

#[verifier::when_used_as_spec(spec_is_half_katakana)]
pub fn is_half_katakana(c: char) -> (r: bool)
    ensures
        r == spec_is_half_katakana(c),
{
    let u = c as u32;
    0xff66 <= u && u <= 0xff9d
}

/// Full-width Latin letters.
pub open spec fn spec_is_wide_alphabetic(c: char) -> bool {
    (0xff41 <= c as u32 && c as u32 <= 0xff5a) || (0xff21 <= c as u32 && c as u32 <= 0xff3a)
}

#[verifier::when_used_as_spec(spec_is_wide_alphabetic)]
pub fn is_wide_alphabetic(c: char) -> (r: bool)
    ensures
        r == spec_is_wide_alphabetic(c),
{
    let u = c as u32;
    (0xff41 <= u && u <= 0xff5a) || (0xff21 <= u && u <= 0xff3a)
}

/// Full-width or half-width Latin letters.
pub open spec fn spec_is_wide_half_alphabetic(c: char) -> bool {
    spec_is_wide_alphabetic(c) || ('a' <= c && c <= 'z') || ('A' <= c && c <= 'Z')
}

#[verifier::when_used_as_spec(spec_is_wide_half_alphabetic)]
pub fn is_wide_half_alphabetic(c: char) -> (r: bool)
    ensures
        r == spec_is_wide_half_alphabetic(c),
{
    let u = c as u32;
    is_wide_alphabetic(c) || (0x61 <= u && u <= 0x7a) || (0x41 <= u && u <= 0x5a)
}

/// Full-width digits.
pub open spec fn spec_is_wide_disit(c: char) -> bool {
    0xff10 <= c as u32 && c as u32 <= 0xff19
}

#[verifier::when_used_as_spec(spec_is_wide_disit)]
pub fn is_wide_disit(c: char) -> (r: bool)
    ensures
        r == spec_is_wide_disit(c),
{
    let u = c as u32;
    0xff10 <= u && u <= 0xff19
}

/// Half-width digits.
pub open spec fn spec_is_half_disit(c: char) -> bool {
    '0' <= c && c <= '9'
}

#[verifier::when_used_as_spec(spec_is_half_disit)]
pub fn is_half_disit(c: char) -> (r: bool)
    ensures
        r == spec_is_half_disit(c),
{
    let u = c as u32;
    0x30 <= u && u <= 0x39
}

/// Full-width or half-width digits.
pub open spec fn spec_is_wide_half_disit(c: char) -> bool {
    spec_is_wide_disit(c) || spec_is_half_disit(c)
}

#[verifier::when_used_as_spec(spec_is_wide_half_disit)]
pub fn is_wide_half_disit(c: char) -> (r: bool)
    ensures
        r == spec_is_wide_half_disit(c),
{
    is_wide_disit(c) || is_half_disit(c)
}

/// The numeric value of a recognised digit character.
///
/// Digit runs are not a token kind of the active rule set, so a run of
/// digits is tokenized as plain text; this decoder classifies a single
/// character and its value 0 through 9 never overflows.
pub open spec fn spec_wide_half_disit_char_to_disit(c: char) -> Option<u32> {
    if spec_is_half_disit(c) {
        Some((c as u32 - '0' as u32) as u32)
    } else if spec_is_wide_disit(c) {
        Some((c as u32 - 0xff10) as u32)
    } else {
        None
    }
}

#[verifier::when_used_as_spec(spec_wide_half_disit_char_to_disit)]
pub fn wide_half_disit_char_to_disit(c: char) -> (r: Option<u32>)
    ensures
        r == spec_wide_half_disit_char_to_disit(c),
{
    if is_half_disit(c) {
        Some(c as u32 - 0x30)
    } else if is_wide_disit(c) {
        Some(c as u32 - 0xff10)
    } else {
        None
    }
}

/// Link annotation marker: half-width or full-width asterisk.
pub open spec fn spec_is_start_link_annotation(c: char) -> bool {
    c == '*' || c == '\u{ff0a}'
}

#[verifier::when_used_as_spec(spec_is_start_link_annotation)]
pub fn is_start_link_annotation(c: char) -> (r: bool)
    ensures
        r == spec_is_start_link_annotation(c),
{
    c == '*' || c == '\u{ff0a}'
}

/// The two CJK sentence punctuation marks.
pub open spec fn spec_is_punctuation(c: char) -> bool {
    c == '\u{3001}' || c == '\u{3002}'
}

#[verifier::when_used_as_spec(spec_is_punctuation)]
pub fn is_punctuation(c: char) -> (r: bool)
    ensures
        r == spec_is_punctuation(c),
{
    c == '\u{3001}' || c == '\u{3002}'
}

/// Line feed or carriage return.
pub open spec fn spec_is_any_newline(c: char) -> bool {
    c == '\r' || c == '\n'
}

#[verifier::when_used_as_spec(spec_is_any_newline)]
pub fn is_any_newline(c: char) -> (r: bool)
    ensures
        r == spec_is_any_newline(c),
{
    c == '\r' || c == '\n'
}

/// Character allowed inside a ruby reading: anything but a newline or
/// a ruby closing delimiter.
pub open spec fn spec_is_able_to_ruby(c: char) -> bool {
    !(spec_is_any_newline(c) || spec_is_end_ruby(c))
}

#[verifier::when_used_as_spec(spec_is_able_to_ruby)]
pub fn is_able_to_ruby(c: char) -> (r: bool)
    ensures
        r == spec_is_able_to_ruby(c),
{
    !(is_any_newline(c) || is_end_ruby(c))
}

/// Character allowed inside the body of a directive ruby: anything but
/// a newline or a ruby opening delimiter.
pub open spec fn spec_is_able_to_ruby_body(c: char) -> bool {
    !(spec_is_any_newline(c) || spec_is_start_ruby(c))
}

#[verifier::when_used_as_spec(spec_is_able_to_ruby_body)]
pub fn is_able_to_ruby_body(c: char) -> (r: bool)
    ensures
        r == spec_is_able_to_ruby_body(c),
{
    !(is_any_newline(c) || is_start_ruby(c))
}

/// Character allowed inside an annotation description: anything but a
/// newline or an annotation closing marker.
pub open spec fn spec_is_able_to_annotation(c: char) -> bool {
    !(spec_is_any_newline(c) || spec_is_end_annotation(c))
}

#[verifier::when_used_as_spec(spec_is_able_to_annotation)]
pub fn is_able_to_annotation(c: char) -> (r: bool)
    ensures
        r == spec_is_able_to_annotation(c),
{
    !(is_any_newline(c) || is_end_annotation(c))
}

/// Character allowed inside an annotation body: anything but a
/// newline, an annotation marker, or a directive marker.
pub open spec fn spec_is_able_to_annotation_body(c: char) -> bool {
    !(spec_is_any_newline(c) || spec_is_start_annotation(c) || spec_is_start_directive(c))
}

#[verifier::when_used_as_spec(spec_is_able_to_annotation_body)]
pub fn is_able_to_annotation_body(c: char) -> (r: bool)
    ensures
        r == spec_is_able_to_annotation_body(c),
{
    !(is_any_newline(c) || is_start_annotation(c) || is_start_directive(c))
}

/// Character allowed inside emphasis content: anything but a newline
/// or an emphasis closing marker.
pub open spec fn spec_is_able_to_emphasis_mark(c: char) -> bool {
    !(spec_is_any_newline(c) || spec_is_end_emphasis_mark(c))
}

#[verifier::when_used_as_spec(spec_is_able_to_emphasis_mark)]
pub fn is_able_to_emphasis_mark(c: char) -> (r: bool)
    ensures
        r == spec_is_able_to_emphasis_mark(c),
{
    !(is_any_newline(c) || is_end_emphasis_mark(c))
}

/// Character allowed inside a quoted term: anything but a newline or a
/// term quote closing marker.
pub open spec fn spec_is_able_to_term(c: char) -> bool {
    !(spec_is_any_newline(c) || spec_is_end_term(c))
}

#[verifier::when_used_as_spec(spec_is_able_to_term)]
pub fn is_able_to_term(c: char) -> (r: bool)
    ensures
        r == spec_is_able_to_term(c),
{
    !(is_any_newline(c) || is_end_term(c))
}

/// Plaintext-eligible: not a directive marker, not whitespace, not a
/// newline, and not part of a kanji run, so that kanji always routes
/// through the ruby-capable rule.
pub open spec fn spec_is_plaintext(c: char) -> bool {
    !(spec_is_start_directive(c) || spec_is_space(c) || spec_is_any_newline(c)
        || spec_is_kanji_related(c))
}

#[verifier::when_used_as_spec(spec_is_plaintext)]
pub fn is_plaintext(c: char) -> (r: bool)
    ensures
        r == spec_is_plaintext(c),
{
    !(is_start_directive(c) || is_space(c) || is_any_newline(c) || is_kanji_related(c))
}

} // verus!
