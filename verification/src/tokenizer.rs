//! The tokenization rules and the token stream.
//!
//! At every position of the input, the rules are tried in a fixed
//! priority order — term, annotation, kanji ruby, directive ruby,
//! bare directive, emphasis, whitespace, newline, plain text — and
//! the first success wins. The plain text fallback always succeeds on
//! non-empty input, so tokenization is total: it terminates on every
//! input and the consumed spans cover the input exactly.

use vstd::prelude::*;

use crate::character::{spec_is_kanji_related, spec_is_space, spec_is_able_to_ruby,
    spec_is_able_to_ruby_body, spec_is_able_to_annotation, spec_is_able_to_annotation_body,
    spec_is_able_to_emphasis_mark, spec_is_plaintext, is_kanji_related, is_space, is_able_to_ruby,
    is_able_to_ruby_body, is_able_to_annotation, is_able_to_annotation_body,
    is_able_to_emphasis_mark, is_plaintext, spec_is_start_ruby, spec_is_end_ruby,
    spec_is_start_directive, spec_is_start_annotation, spec_is_end_annotation,
    spec_is_start_emphasis_mark, spec_is_end_emphasis_mark, is_start_ruby,
    is_end_ruby, is_start_directive, is_start_annotation, is_end_annotation,
    is_start_emphasis_mark, is_end_emphasis_mark};
use crate::term::TermMap;
use crate::term::map_wf;
use crate::text::text_bytes;
use crate::text::nvs_count;
use crate::token::Position;
use crate::token::Span;
use crate::token::Token;
use crate::token::token_chars;
use crate::token::TokenText;

verus! {

/// The position where a run of characters of one class ends: the
/// first position at or after `i` whose character does not satisfy
/// the predicate, or the end of the input.
pub open spec fn run_end(s: Seq<char>, i: int, p: spec_fn(char) -> bool) -> int
    decreases s.len() - i,
{
    if 0 <= i < s.len() && p(s[i]) {
        run_end(s, i + 1, p)
    } else {
        i
    }
}

pub proof fn lemma_run_end(s: Seq<char>, i: int, p: spec_fn(char) -> bool)
    requires
        0 <= i <= s.len(),
    ensures
        i <= run_end(s, i, p) <= s.len(),
        forall|k: int| i <= k < run_end(s, i, p) ==> p(s[k]),
        run_end(s, i, p) == s.len() || !p(s[run_end(s, i, p)]),
    decreases s.len() - i,
{
    if i < s.len() && p(s[i]) {
        lemma_run_end(s, i + 1, p);
    }
}

/// The character classes over which the rules scan runs.
#[derive(Debug, Clone, Copy, PartialEq, Eq)]
pub enum CharClass {
    KanjiRelated,
    Space,
    AbleRuby,
    AbleRubyBody,
    AbleAnnotation,
    AbleAnnotationBody,
    AbleEmphasisMark,
    Plain,
}

/// The predicate a character class stands for.
pub open spec fn class_pred(cls: CharClass) -> spec_fn(char) -> bool {
    match cls {
        CharClass::KanjiRelated => |c: char| spec_is_kanji_related(c),
        CharClass::Space => |c: char| spec_is_space(c),
        CharClass::AbleRuby => |c: char| spec_is_able_to_ruby(c),
        CharClass::AbleRubyBody => |c: char| spec_is_able_to_ruby_body(c),
        CharClass::AbleAnnotation => |c: char| spec_is_able_to_annotation(c),
        CharClass::AbleAnnotationBody => |c: char| spec_is_able_to_annotation_body(c),
        CharClass::AbleEmphasisMark => |c: char| spec_is_able_to_emphasis_mark(c),
        CharClass::Plain => |c: char| spec_is_plaintext(c),
    }
}

/// Whether one character belongs to the class.
fn class_holds(cls: CharClass, c: char) -> (r: bool)
    ensures
        r == class_pred(cls)(c),
{
    match cls {
        CharClass::KanjiRelated => is_kanji_related(c),
        CharClass::Space => is_space(c),
        CharClass::AbleRuby => is_able_to_ruby(c),
        CharClass::AbleRubyBody => is_able_to_ruby_body(c),
        CharClass::AbleAnnotation => is_able_to_annotation(c),
        CharClass::AbleAnnotationBody => is_able_to_annotation_body(c),
        CharClass::AbleEmphasisMark => is_able_to_emphasis_mark(c),
        CharClass::Plain => is_plaintext(c),
    }
}

/// The end of the run of characters of class `cls` starting at `i`.
pub fn scan_while(s: &Vec<char>, i: usize, cls: CharClass) -> (j: usize)
    requires
        i <= s@.len(),
    ensures
        j == run_end(s@, i as int, class_pred(cls)),
        i <= j <= s@.len(),
{
    let mut k: usize = i;
    loop
        invariant
            i <= k <= s@.len(),
            run_end(s@, i as int, class_pred(cls)) == run_end(s@, k as int, class_pred(cls)),
        decreases s@.len() - k,
    {
        if k == s.len() {
            return k;
        }
        if !class_holds(cls, s[k]) {
            return k;
        }
        proof {
            assert(run_end(s@, k as int, class_pred(cls)) == run_end(
                s@,
                k + 1,
                class_pred(cls),
            ));
        }
        k = k + 1;
    }
}


/// Shared context of every rule: the position `i` lies in the input,
/// and the position bookkeeping cannot overflow while the remaining
/// input is consumed.
pub open spec fn scan_ctx(s: Seq<char>, i: int, pos: Position) -> bool {
    &&& 0 <= i < s.len()
    &&& s.len() <= usize::MAX
    &&& pos.byte_offset + text_bytes(s.subrange(i, s.len() as int)) <= usize::MAX
    &&& pos.line + (s.len() - i) <= usize::MAX
}

/// What every successful rule guarantees: progress, the token's span
/// is exactly the consumed region, and it starts at the current
/// position.
pub open spec fn token_result_ok(s: Seq<char>, i: int, pos: Position, t: Token, j: int) -> bool {
    &&& i < j <= s.len()
    &&& token_chars(t) == s.subrange(i, j)
    &&& t.spec_span().position == pos
}

/// A span over the region `[from, to)` of `s`, at `pos`.
fn make_span(s: &Vec<char>, from: usize, to: usize, pos: Position) -> (r: Span)
    requires
        from <= to <= s@.len(),
    ensures
        r.body@ == s@.subrange(from as int, to as int),
        r.position == pos,
{
    Span { body: crate::text::copy_range(s, from, to), position: pos }
}

/// The position of the character at `k`, given the position of the
/// character at `i`. The line number is kept: the rules only use
/// this inside a single construct, whose characters exclude
/// newlines.
fn sub_position(s: &Vec<char>, i: usize, k: usize, pos: Position) -> (r: Position)
    requires
        i <= k <= s@.len(),
        pos.byte_offset + text_bytes(s@.subrange(i as int, s@.len() as int)) <= usize::MAX,
    ensures
        r.line == pos.line,
        r.byte_offset == pos.byte_offset + text_bytes(s@.subrange(i as int, k as int)),
{
    proof {
        lemma_split_bytes(s@, i as int, k as int);
        crate::text::lemma_text_bytes_bounds(s@.subrange(i as int, k as int));
        crate::text::lemma_text_bytes_bounds(s@.subrange(k as int, s@.len() as int));
    }
    Position { line: pos.line, byte_offset: pos.byte_offset + crate::text::utf8_len_range(s, i, k) }
}

/// The bytes of `[i, n)` split at `k` into `[i, k)` and `[k, n)`.
pub proof fn lemma_split_bytes(s: Seq<char>, i: int, k: int)
    requires
        0 <= i <= k <= s.len(),
    ensures
        text_bytes(s.subrange(i, s.len() as int)) == text_bytes(s.subrange(i, k)) + text_bytes(
            s.subrange(k, s.len() as int),
        ),
{
    crate::text::lemma_text_bytes_concat(s.subrange(i, k), s.subrange(k, s.len() as int));
    assert(s.subrange(i, k) + s.subrange(k, s.len() as int) =~= s.subrange(i, s.len() as int));
}

/// Length of the logical newline at `i`: two characters for a CR LF
/// pair, one for a lone LF or CR, zero when no newline starts here.
pub open spec fn newline_len(s: Seq<char>, i: int) -> int {
    if 0 <= i < s.len() && s[i] == '\n' {
        1
    } else if 0 <= i < s.len() && s[i] == '\r' {
        if i + 1 < s.len() && s[i + 1] == '\n' {
            2
        } else {
            1
        }
    } else {
        0
    }
}

/// Recognise one logical newline: `\n`, `\r\n`, or a bare `\r`.
pub fn newline(s: &Vec<char>, i: usize, pos: Position) -> (r: Option<(Token, usize)>)
    requires
        scan_ctx(s@, i as int, pos),
    ensures
        match r {
            Some(p) => {
                &&& p.1 - i == newline_len(s@, i as int)
                &&& token_result_ok(s@, i as int, pos, p.0, p.1 as int)
                &&& p.0 is NewLine
            },
            None => newline_len(s@, i as int) == 0,
        },
{
    let c = s[i];
    if c == '\n' {
        Some((Token::NewLine { span: make_span(s, i, i + 1, pos) }, i + 1))
    } else if c == '\r' {
        if i + 1 < s.len() && s[i + 1] == '\n' {
            Some((Token::NewLine { span: make_span(s, i, i + 2, pos) }, i + 2))
        } else {
            Some((Token::NewLine { span: make_span(s, i, i + 1, pos) }, i + 1))
        }
    } else {
        None
    }
}

/// End of the whitespace run starting at `i`.
pub open spec fn space_end(s: Seq<char>, i: int) -> int {
    run_end(s, i, class_pred(CharClass::Space))
}

/// Recognise a run of one or more whitespace characters.
pub fn space(s: &Vec<char>, i: usize, pos: Position) -> (r: Option<(Token, usize)>)
    requires
        scan_ctx(s@, i as int, pos),
    ensures
        match r {
            Some(p) => {
                &&& spec_is_space(s@[i as int])
                &&& p.1 == space_end(s@, i as int)
                &&& token_result_ok(s@, i as int, pos, p.0, p.1 as int)
                &&& p.0 is Space
            },
            None => !spec_is_space(s@[i as int]),
        },
{
    if !is_space(s[i]) {
        return None;
    }
    let e = scan_while(s, i, CharClass::Space);
    proof {
        lemma_run_end(s@, i as int, class_pred(CharClass::Space));
    }
    Some((Token::Space { span: make_span(s, i, e, pos) }, e))
}

/// End of the plain text consumed by the fallback rule: the maximal
/// run of plaintext-eligible characters, or exactly one character
/// when the current one is not plaintext-eligible.
pub open spec fn plain_end(s: Seq<char>, i: int) -> int {
    if 0 <= i < s.len() && spec_is_plaintext(s[i]) {
        run_end(s, i, class_pred(CharClass::Plain))
    } else {
        i + 1
    }
}

/// The plain text fallback; always succeeds on non-empty input.
pub fn plaintext(s: &Vec<char>, i: usize, pos: Position) -> (r: (Token, usize))
    requires
        scan_ctx(s@, i as int, pos),
    ensures
        r.1 == plain_end(s@, i as int),
        token_result_ok(s@, i as int, pos, r.0, r.1 as int),
        r.0 is Plaintext,
{
    if is_plaintext(s[i]) {
        let e = scan_while(s, i, CharClass::Plain);
        proof {
            lemma_run_end(s@, i as int, class_pred(CharClass::Plain));
        }
        (Token::Plaintext { span: make_span(s, i, e, pos) }, e)
    } else {
        (Token::Plaintext { span: make_span(s, i, i + 1, pos) }, i + 1)
    }
}

/// End of the kanji run starting at `i`.
pub open spec fn kanji_end(s: Seq<char>, i: int) -> int {
    run_end(s, i, class_pred(CharClass::KanjiRelated))
}

/// End of the ruby reading that would start after an opening
/// delimiter at `k`.
pub open spec fn reading_end(s: Seq<char>, k: int) -> int {
    run_end(s, k + 1, class_pred(CharClass::AbleRuby))
}

/// Whether a delimited, non-empty ruby reading starts at `k`.
pub open spec fn ruby_suffix_ok(s: Seq<char>, k: int) -> bool {
    &&& 0 <= k < s.len()
    &&& spec_is_start_ruby(s[k])
    &&& reading_end(s, k) > k + 1
    &&& reading_end(s, k) < s.len()
    &&& spec_is_end_ruby(s[reading_end(s, k)])
}

/// The ruby size bound: at most ten body characters, and at most ten
/// reading characters per body character (variation selectors
/// excluded on both sides). It rejects a parenthetical aside that is
/// not a reading.
pub open spec fn size_ok(body: Seq<char>, reading: Seq<char>) -> bool {
    &&& nvs_count(body) <= 10
    &&& nvs_count(reading) <= 10 * nvs_count(body)
}

/// Try to recognise the delimited ruby reading at `k`; on success
/// return the reading region `[k + 1, reading_end)`.
fn try_ruby_suffix(s: &Vec<char>, k: usize) -> (r: Option<usize>)
    requires
        k <= s@.len(),
        s@.len() <= usize::MAX,
    ensures
        match r {
            Some(re) => {
                &&& ruby_suffix_ok(s@, k as int)
                &&& re == reading_end(s@, k as int)
            },
            None => !ruby_suffix_ok(s@, k as int),
        },
{
    if k == s.len() {
        return None;
    }
    if !is_start_ruby(s[k]) {
        return None;
    }
    let re = scan_while(s, k + 1, CharClass::AbleRuby);
    proof {
        lemma_run_end(s@, k + 1, class_pred(CharClass::AbleRuby));
    }
    if re == k + 1 {
        return None;
    }
    if re == s.len() {
        return None;
    }
    if !is_end_ruby(s[re]) {
        return None;
    }
    Some(re)
}

/// What the kanji-ruby rule yields: a kanji-ruby token when the run
/// is followed by a delimited reading within the size bound, and the
/// kanji run alone as plain text otherwise (the suffix is then
/// retried as independent tokens).
pub open spec fn kanji_token_spec(s: Seq<char>, i: int, pos: Position, t: Token, j: int) -> bool {
    let ke = kanji_end(s, i);
    let re = reading_end(s, ke);
    if ruby_suffix_ok(s, ke) && size_ok(s.subrange(i, ke), s.subrange(ke + 1, re)) {
        &&& j == re + 1
        &&& t matches Token::KanjiRuby { span, body, ruby } && body.body@ == s.subrange(i, ke)
            && body.position == pos && ruby.body@ == s.subrange(ke + 1, re) && ruby.position.line
            == pos.line && ruby.position.byte_offset == pos.byte_offset + text_bytes(
            s.subrange(i, ke + 1),
        )
    } else {
        &&& j == ke
        &&& t is Plaintext
    }
}

/// The kanji-ruby rule: a kanji run, optionally with an attached
/// delimited reading.
pub fn kanji_ruby(s: &Vec<char>, i: usize, pos: Position) -> (r: (Token, usize))
    requires
        scan_ctx(s@, i as int, pos),
        spec_is_kanji_related(s@[i as int]),
    ensures
        token_result_ok(s@, i as int, pos, r.0, r.1 as int),
        kanji_token_spec(s@, i as int, pos, r.0, r.1 as int),
{
    let ke = scan_while(s, i, CharClass::KanjiRelated);
    proof {
        lemma_run_end(s@, i as int, class_pred(CharClass::KanjiRelated));
        assert(ke > i);
    }
    match try_ruby_suffix(s, ke) {
        Some(re) => {
            let bc = crate::text::nvs_count_range(s, i, ke);
            let rc = crate::text::nvs_count_range(s, ke + 1, re);
            proof {
                crate::text::lemma_nvs_count_bounds(s@.subrange(i as int, ke as int));
            }
            if bc <= 10 && rc <= 10 * bc {
                let body = make_span(s, i, ke, pos);
                let ruby = make_span(s, ke + 1, re, sub_position(s, i, ke + 1, pos));
                let span = make_span(s, i, re + 1, pos);
                (Token::KanjiRuby { span, body, ruby }, re + 1)
            } else {
                (Token::Plaintext { span: make_span(s, i, ke, pos) }, ke)
            }
        },
        None => (Token::Plaintext { span: make_span(s, i, ke, pos) }, ke),
    }
}

/// End of the directive ruby body that starts after the marker at `i`.
pub open spec fn ruby_body_end(s: Seq<char>, i: int) -> int {
    run_end(s, i + 1, class_pred(CharClass::AbleRubyBody))
}

/// What the directive rules yield: an explicit ruby token when a
/// delimited reading follows a non-empty body within the size bound;
/// the bare marker as an ignore token when the body is empty or no
/// reading follows; and the marker alone as plain text when the size
/// bound fails.
pub open spec fn directive_token_spec(s: Seq<char>, i: int, pos: Position, t: Token, j: int) -> bool {
    let be = ruby_body_end(s, i);
    let re = reading_end(s, be);
    if ruby_suffix_ok(s, be) {
        if be == i + 1 {
            &&& j == i + 1
            &&& t is Ignore
        } else if size_ok(s.subrange(i + 1, be), s.subrange(be + 1, re)) {
            &&& j == re + 1
            &&& t matches Token::Ruby { span, body, ruby } && body.body@ == s.subrange(i + 1, be)
                && body.position.line == pos.line && body.position.byte_offset == pos.byte_offset
                + text_bytes(s.subrange(i, i + 1)) && ruby.body@ == s.subrange(be + 1, re)
                && ruby.position.line == pos.line && ruby.position.byte_offset == pos.byte_offset
                + text_bytes(s.subrange(i, be + 1))
        } else {
            &&& j == i + 1
            &&& t is Plaintext
        }
    } else {
        &&& j == i + 1
        &&& t is Ignore
    }
}

/// The directive rules: an explicit ruby after the marker, or the
/// bare marker consumed on its own.
pub fn directive_ruby(s: &Vec<char>, i: usize, pos: Position) -> (r: (Token, usize))
    requires
        scan_ctx(s@, i as int, pos),
        spec_is_start_directive(s@[i as int]),
    ensures
        token_result_ok(s@, i as int, pos, r.0, r.1 as int),
        directive_token_spec(s@, i as int, pos, r.0, r.1 as int),
{
    let be = scan_while(s, i + 1, CharClass::AbleRubyBody);
    proof {
        lemma_run_end(s@, i + 1, class_pred(CharClass::AbleRubyBody));
    }
    match try_ruby_suffix(s, be) {
        Some(re) => {
            if be == i + 1 {
                return (Token::Ignore { span: make_span(s, i, i + 1, pos) }, i + 1);
            }
            let bc = crate::text::nvs_count_range(s, i + 1, be);
            let rc = crate::text::nvs_count_range(s, be + 1, re);
            proof {
                crate::text::lemma_nvs_count_bounds(s@.subrange(i + 1, be as int));
            }
            if bc <= 10 && rc <= 10 * bc {
                let body = make_span(s, i + 1, be, sub_position(s, i, i + 1, pos));
                let ruby = make_span(s, be + 1, re, sub_position(s, i, be + 1, pos));
                let span = make_span(s, i, re + 1, pos);
                (Token::Ruby { span, body, ruby }, re + 1)
            } else {
                (Token::Plaintext { span: make_span(s, i, i + 1, pos) }, i + 1)
            }
        },
        None => (Token::Ignore { span: make_span(s, i, i + 1, pos) }, i + 1),
    }
}

/// End of the emphasis content that starts after the doubled opening
/// marker at `i`.
pub open spec fn emphasis_content_end(s: Seq<char>, i: int) -> int {
    run_end(s, i + 2, class_pred(CharClass::AbleEmphasisMark))
}

/// Whether an emphasis construct starts at `i`: a doubled opening
/// marker, one or more content characters, and a doubled closing
/// marker. A single marker does not qualify.
pub open spec fn emphasis_ok(s: Seq<char>, i: int) -> bool {
    let ce = emphasis_content_end(s, i);
    &&& 0 <= i
    &&& i + 1 < s.len()
    &&& spec_is_start_emphasis_mark(s[i])
    &&& spec_is_start_emphasis_mark(s[i + 1])
    &&& ce > i + 2
    &&& ce + 1 < s.len()
    &&& spec_is_end_emphasis_mark(s[ce])
    &&& spec_is_end_emphasis_mark(s[ce + 1])
}

/// What the emphasis rule yields on success.
pub open spec fn emphasis_token_spec(s: Seq<char>, i: int, pos: Position, t: Token, j: int) -> bool {
    let ce = emphasis_content_end(s, i);
    &&& j == ce + 2
    &&& t matches Token::EmphasisMark { span, body } && body.body@ == s.subrange(i + 2, ce)
        && body.position.line == pos.line && body.position.byte_offset == pos.byte_offset
        + text_bytes(s.subrange(i, i + 2))
}

/// The emphasis rule: content wrapped in doubled markers.
pub fn emphasis_mark(s: &Vec<char>, i: usize, pos: Position) -> (r: Option<(Token, usize)>)
    requires
        scan_ctx(s@, i as int, pos),
    ensures
        match r {
            Some(p) => {
                &&& emphasis_ok(s@, i as int)
                &&& token_result_ok(s@, i as int, pos, p.0, p.1 as int)
                &&& emphasis_token_spec(s@, i as int, pos, p.0, p.1 as int)
            },
            None => !emphasis_ok(s@, i as int),
        },
{
    if !is_start_emphasis_mark(s[i]) {
        return None;
    }
    if i + 1 >= s.len() {
        return None;
    }
    if !is_start_emphasis_mark(s[i + 1]) {
        return None;
    }
    let ce = scan_while(s, i + 2, CharClass::AbleEmphasisMark);
    proof {
        lemma_run_end(s@, i + 2, class_pred(CharClass::AbleEmphasisMark));
    }
    if ce == i + 2 {
        return None;
    }
    if s.len() - ce < 2 {
        return None;
    }
    if !is_end_emphasis_mark(s[ce]) {
        return None;
    }
    if !is_end_emphasis_mark(s[ce + 1]) {
        return None;
    }
    let body = make_span(s, i + 2, ce, sub_position(s, i, i + 2, pos));
    let span = make_span(s, i, ce + 2, pos);
    Some((Token::EmphasisMark { span, body }, ce + 2))
}

/// Whether some contained term's body occurs at `i`.
pub open spec fn has_term_match(m: TermMap, s: Seq<char>, i: int) -> bool {
    exists|t: crate::term::Term|
        #[trigger] crate::term::map_contains(m, t) && crate::term::prefix_at(t.body@, s, i)
}

/// What the term rule yields: the greedy longest match, first in
/// group order among every contained term matching at `i`.
pub open spec fn term_token_spec(m: TermMap, s: Seq<char>, i: int, t: Token, j: int) -> bool {
    t matches Token::Term { span, term_id } && (exists|u: crate::term::Term|
        {
            &&& #[trigger] crate::term::map_contains(m, u)
            &&& u.body@ == s.subrange(i, j)
            &&& u.id == term_id
            &&& forall|v: crate::term::Term|
                #[trigger] crate::term::map_contains(m, v) && crate::term::prefix_at(
                    v.body@,
                    s,
                    i,
                ) ==> crate::term::term_precedes(u, v)
        })
}

/// The term rule: greedy longest-match lookup in the index.
pub fn term(tm: &TermMap, s: &Vec<char>, i: usize, pos: Position) -> (r: Option<(Token, usize)>)
    requires
        map_wf(*tm),
        scan_ctx(s@, i as int, pos),
    ensures
        match r {
            Some(p) => {
                &&& has_term_match(*tm, s@, i as int)
                &&& token_result_ok(s@, i as int, pos, p.0, p.1 as int)
                &&& term_token_spec(*tm, s@, i as int, p.0, p.1 as int)
            },
            None => !has_term_match(*tm, s@, i as int),
        },
{
    match tm.lookup(s, i) {
        Some((end, id)) => {
            proof {
                let u = choose|u: crate::term::Term|
                    {
                        &&& #[trigger] crate::term::map_contains(*tm, u)
                        &&& u.body@ == s@.subrange(i as int, end as int)
                        &&& u.id == id
                        &&& forall|v: crate::term::Term|
                            #[trigger] crate::term::map_contains(*tm, v) && crate::term::prefix_at(
                                v.body@,
                                s@,
                                i as int,
                            ) ==> crate::term::term_precedes(u, v)
                    };
                assert(crate::term::prefix_at(u.body@, s@, i as int));
            }
            let span = make_span(s, i, end, pos);
            Some((Token::Term { span, term_id: id }, end))
        },
        None => {
            proof {
                if has_term_match(*tm, s@, i as int) {
                    let u = choose|u: crate::term::Term|
                        #[trigger] crate::term::map_contains(*tm, u) && crate::term::prefix_at(
                            u.body@,
                            s@,
                            i as int,
                        );
                    assert(false);
                }
            }
            None
        },
    }
}


/// End of the annotation body that starts after the marker at `i`.
pub open spec fn annotation_body_end(s: Seq<char>, i: int) -> int {
    run_end(s, i + 1, class_pred(CharClass::AbleAnnotationBody))
}

/// End of the annotation description that starts after the opening
/// marker at `k`.
pub open spec fn description_end(s: Seq<char>, k: int) -> int {
    run_end(s, k + 1, class_pred(CharClass::AbleAnnotation))
}

/// Whether an annotation starts at the directive marker at `i`: a
/// non-empty body, then a non-empty description between the
/// annotation marker pair.
pub open spec fn annotation_ok(s: Seq<char>, i: int) -> bool {
    let be = annotation_body_end(s, i);
    let de = description_end(s, be);
    &&& be > i + 1
    &&& be < s.len()
    &&& spec_is_start_annotation(s[be])
    &&& de > be + 1
    &&& de < s.len()
    &&& spec_is_end_annotation(s[de])
}

/// What the annotation rule yields on success: the body as a raw
/// span, and the description recursively tokenized, covering the
/// description text with correctly chained positions.
pub open spec fn annotation_token_spec(
    s: Seq<char>,
    i: int,
    pos: Position,
    t: Token,
    j: int,
) -> bool {
    let be = annotation_body_end(s, i);
    let de = description_end(s, be);
    &&& j == de + 1
    &&& t matches Token::Annotation { span, body, description } && body.body@ == s.subrange(
        i + 1,
        be,
    ) && body.position.line == pos.line && body.position.byte_offset == pos.byte_offset
        + text_bytes(s.subrange(i, i + 1)) && crate::token::tokens_chars(description.0@)
        == s.subrange(be + 1, de) && crate::token::no_adjacent_plaintext(description.0@)
        && crate::token::positions_chain(
        description.0@,
        pos.line as int,
        pos.byte_offset + text_bytes(s.subrange(i, be + 1)),
    )
}

/// The annotation rule: a directive marker, a body, and a delimited
/// description which is itself tokenized.
pub fn directive_annotation(tm: &TermMap, s: &Vec<char>, i: usize, pos: Position) -> (r: Option<
    (Token, usize),
>)
    requires
        map_wf(*tm),
        scan_ctx(s@, i as int, pos),
        spec_is_start_directive(s@[i as int]),
    ensures
        match r {
            Some(p) => {
                &&& annotation_ok(s@, i as int)
                &&& token_result_ok(s@, i as int, pos, p.0, p.1 as int)
                &&& annotation_token_spec(s@, i as int, pos, p.0, p.1 as int)
            },
            None => !annotation_ok(s@, i as int),
        },
    decreases s@.len() - i, 0int,
{
    let be = scan_while(s, i + 1, CharClass::AbleAnnotationBody);
    proof {
        lemma_run_end(s@, i + 1, class_pred(CharClass::AbleAnnotationBody));
    }
    if be == i + 1 {
        return None;
    }
    if be == s.len() {
        return None;
    }
    if !is_start_annotation(s[be]) {
        return None;
    }
    let de = scan_while(s, be + 1, CharClass::AbleAnnotation);
    proof {
        lemma_run_end(s@, be + 1, class_pred(CharClass::AbleAnnotation));
    }
    if de == be + 1 {
        return None;
    }
    if de == s.len() {
        return None;
    }
    if !is_end_annotation(s[de]) {
        return None;
    }
    let desc_chars = crate::text::copy_range(s, be + 1, de);
    let desc_pos = sub_position(s, i, be + 1, pos);
    proof {
        lemma_split_bytes(s@, i as int, be + 1);
        lemma_split_bytes(s@, be + 1, de as int);
        crate::text::lemma_text_bytes_bounds(s@.subrange(de as int, s@.len() as int));
        crate::text::lemma_text_bytes_bounds(s@.subrange(be + 1, de as int));
        assert(desc_chars@.len() < s@.len() - i);
    }
    let description = tokenize(tm, &desc_chars, desc_pos);
    let body = make_span(s, i + 1, be, sub_position(s, i, i + 1, pos));
    let span = make_span(s, i, de + 1, pos);
    Some((Token::Annotation { span, body, description }, de + 1))
}

/// What one tokenization step yields, by the rule priority order:
/// term, annotation, kanji ruby, directive, emphasis, whitespace,
/// newline, plain text — the first applicable rule decides.
pub open spec fn step_spec(
    m: TermMap,
    s: Seq<char>,
    i: int,
    pos: Position,
    t: Token,
    j: int,
) -> bool {
    if has_term_match(m, s, i) {
        term_token_spec(m, s, i, t, j)
    } else if spec_is_start_directive(s[i]) && annotation_ok(s, i) {
        annotation_token_spec(s, i, pos, t, j)
    } else if spec_is_kanji_related(s[i]) {
        kanji_token_spec(s, i, pos, t, j)
    } else if spec_is_start_directive(s[i]) {
        directive_token_spec(s, i, pos, t, j)
    } else if emphasis_ok(s, i) {
        emphasis_token_spec(s, i, pos, t, j)
    } else if spec_is_space(s[i]) {
        t is Space && j == space_end(s, i)
    } else if newline_len(s, i) > 0 {
        t is NewLine && j == i + newline_len(s, i)
    } else {
        t is Plaintext && j == plain_end(s, i)
    }
}

/// Whether the step at `i` yields plain text: the plain text
/// fallback fires, or the kanji or directive rule demotes its match.
pub open spec fn step_is_plain(m: TermMap, s: Seq<char>, i: int) -> bool {
    if has_term_match(m, s, i) {
        false
    } else if spec_is_start_directive(s[i]) && annotation_ok(s, i) {
        false
    } else if spec_is_kanji_related(s[i]) {
        let ke = kanji_end(s, i);
        let re = reading_end(s, ke);
        !(ruby_suffix_ok(s, ke) && size_ok(s.subrange(i, ke), s.subrange(ke + 1, re)))
    } else if spec_is_start_directive(s[i]) {
        let be = ruby_body_end(s, i);
        let re = reading_end(s, be);
        ruby_suffix_ok(s, be) && be != i + 1 && !size_ok(
            s.subrange(i + 1, be),
            s.subrange(be + 1, re),
        )
    } else if emphasis_ok(s, i) {
        false
    } else if spec_is_space(s[i]) {
        false
    } else if newline_len(s, i) > 0 {
        false
    } else {
        true
    }
}

/// Where the plain text yielded by the step at `i` ends.
pub open spec fn step_plain_end(m: TermMap, s: Seq<char>, i: int) -> int {
    if has_term_match(m, s, i) {
        i
    } else if spec_is_start_directive(s[i]) && annotation_ok(s, i) {
        i
    } else if spec_is_kanji_related(s[i]) {
        kanji_end(s, i)
    } else if spec_is_start_directive(s[i]) {
        i + 1
    } else if emphasis_ok(s, i) {
        i
    } else if spec_is_space(s[i]) {
        i
    } else if newline_len(s, i) > 0 {
        i
    } else {
        plain_end(s, i)
    }
}

/// The region `[st, en)` decomposes into consecutive steps that each
/// yielded plain text.
pub open spec fn plain_run(m: TermMap, s: Seq<char>, st: int, en: int) -> bool
    decreases en - st,
{
    if st < en {
        &&& step_is_plain(m, s, st)
        &&& st < step_plain_end(m, s, st) <= en
        &&& plain_run(m, s, step_plain_end(m, s, st), en)
    } else {
        st == en
    }
}

/// Two adjacent plain runs join into one.
pub proof fn lemma_plain_run_concat(m: TermMap, s: Seq<char>, a: int, b: int, c: int)
    requires
        a <= b <= c,
        plain_run(m, s, a, b),
        plain_run(m, s, b, c),
    ensures
        plain_run(m, s, a, c),
    decreases b - a,
{
    if a < b {
        lemma_plain_run_concat(m, s, step_plain_end(m, s, a), b, c);
    }
}

/// A token abides by the rules at its place in the stream over `s`:
/// a plain text token covers a run of steps that all yielded plain
/// text, and any other token is exactly what the step at its start
/// yields.
pub open spec fn token_follows_rules(
    m: TermMap,
    s: Seq<char>,
    off: int,
    toks: Seq<Token>,
    k: int,
) -> bool {
    let st = off + crate::token::tokens_chars(toks.subrange(0, k)).len();
    let en = st + token_chars(toks[k]).len();
    if toks[k] is Plaintext {
        st < en && plain_run(m, s, st, en)
    } else {
        step_spec(m, s, st, toks[k].spec_span().position, toks[k], en)
    }
}

/// Every token of the stream abides by the rules; together with the
/// coverage, adjacency and position guarantees this pins the token
/// stream down completely.
pub open spec fn stream_follows_rules(m: TermMap, s: Seq<char>, off: int, toks: Seq<Token>) -> bool {
    forall|k: int| 0 <= k < toks.len() ==> #[trigger] token_follows_rules(m, s, off, toks, k)
}

/// A step that yielded a plain text token is a plain step ending
/// where the token ends.
proof fn lemma_step_plain(m: TermMap, s: Seq<char>, i: int, pos: Position, t: Token, j: int)
    requires
        token_result_ok(s, i, pos, t, j),
        step_spec(m, s, i, pos, t, j),
        t is Plaintext,
    ensures
        step_is_plain(m, s, i),
        step_plain_end(m, s, i) == j,
        plain_run(m, s, i, j),
{
    assert(plain_run(m, s, j, j));
}

/// One tokenization step: try the rules in priority order and return
/// the first success. Total on non-empty input.
pub fn next_raw_token(tm: &TermMap, s: &Vec<char>, i: usize, pos: Position) -> (r: (Token, usize))
    requires
        map_wf(*tm),
        scan_ctx(s@, i as int, pos),
    ensures
        token_result_ok(s@, i as int, pos, r.0, r.1 as int),
        step_spec(*tm, s@, i as int, pos, r.0, r.1 as int),
    decreases s@.len() - i, 1int,
{
    if let Some(p) = term(tm, s, i, pos) {
        return p;
    }
    if is_start_directive(s[i]) {
        if let Some(p) = directive_annotation(tm, s, i, pos) {
            return p;
        }
        proof {
            assert(!spec_is_kanji_related(s@[i as int]));
        }
        return directive_ruby(s, i, pos);
    }
    if is_kanji_related(s[i]) {
        return kanji_ruby(s, i, pos);
    }
    if let Some(p) = emphasis_mark(s, i, pos) {
        return p;
    }
    if let Some(p) = space(s, i, pos) {
        return p;
    }
    if let Some(p) = newline(s, i, pos) {
        return p;
    }
    plaintext(s, i, pos)
}

/// Appending a token that abides by the rules keeps the stream
/// abiding by the rules.
proof fn lemma_follows_push(m: TermMap, s: Seq<char>, off: int, toks: Seq<Token>, t: Token)
    requires
        stream_follows_rules(m, s, off, toks),
        ({
            let st = off + crate::token::tokens_chars(toks).len();
            let en = st + token_chars(t).len();
            if t is Plaintext {
                st < en && plain_run(m, s, st, en)
            } else {
                step_spec(m, s, st, t.spec_span().position, t, en)
            }
        }),
    ensures
        stream_follows_rules(m, s, off, toks.push(t)),
{
    assert forall|k: int| 0 <= k < toks.push(t).len() implies #[trigger] token_follows_rules(
        m,
        s,
        off,
        toks.push(t),
        k,
    ) by {
        if k < toks.len() {
            assert(token_follows_rules(m, s, off, toks, k));
            assert(toks.push(t).subrange(0, k) =~= toks.subrange(0, k));
            assert(toks.push(t)[k] == toks[k]);
        } else {
            assert(toks.push(t).subrange(0, k) =~= toks);
            assert(toks.push(t)[k] == t);
        }
    }
}

/// A stream that abides by the rules still does without its last
/// token.
proof fn lemma_follows_unpush(m: TermMap, s: Seq<char>, off: int, toks: Seq<Token>)
    requires
        toks.len() > 0,
        stream_follows_rules(m, s, off, toks),
    ensures
        stream_follows_rules(m, s, off, toks.subrange(0, toks.len() - 1)),
{
    let prefix = toks.subrange(0, toks.len() - 1);
    assert forall|k: int| 0 <= k < prefix.len() implies #[trigger] token_follows_rules(
        m,
        s,
        off,
        prefix,
        k,
    ) by {
        assert(token_follows_rules(m, s, off, toks, k));
        assert(prefix.subrange(0, k) =~= toks.subrange(0, k));
        assert(prefix[k] == toks[k]);
    }
}

/// Append a token to the stream under construction, merging it into
/// the last token when both are plain text, so that no two adjacent
/// plain text tokens ever stand in the stream.
#[verifier::rlimit(80)]
fn push_coalesced(
    tokens: &mut Vec<Token>,
    tok: Token,
    Ghost(m_g): Ghost<TermMap>,
    Ghost(src): Ghost<Seq<char>>,
    Ghost(off): Ghost<int>,
    Ghost(base): Ghost<Position>,
    Ghost(done): Ghost<Seq<char>>,
)
    requires
        crate::token::tokens_chars(old(tokens)@) == done,
        crate::token::no_adjacent_plaintext(old(tokens)@),
        crate::token::positions_chain(old(tokens)@, base.line as int, base.byte_offset as int),
        stream_follows_rules(m_g, src, off, old(tokens)@),
        tok.spec_span().position.line == base.line + crate::token::newline_count(old(tokens)@),
        tok.spec_span().position.byte_offset == base.byte_offset + text_bytes(done),
        ({
            let st = off + done.len();
            let en = st + crate::token::token_chars(tok).len();
            if tok is Plaintext {
                st < en && plain_run(m_g, src, st, en)
            } else {
                step_spec(m_g, src, st, tok.spec_span().position, tok, en)
            }
        }),
    ensures
        crate::token::tokens_chars(final(tokens)@) == done + crate::token::token_chars(tok),
        crate::token::no_adjacent_plaintext(final(tokens)@),
        crate::token::positions_chain(final(tokens)@, base.line as int, base.byte_offset as int),
        stream_follows_rules(m_g, src, off, final(tokens)@),
        crate::token::newline_count(final(tokens)@) == crate::token::newline_count(old(tokens)@)
            + (if tok is NewLine {
            1int
        } else {
            0int
        }),
{
    let ghost toks0 = tokens@;
    let mut do_merge = false;
    if matches!(&tok, Token::Plaintext { .. }) && tokens.len() > 0 {
        if matches!(&tokens[tokens.len() - 1], Token::Plaintext { .. }) {
            do_merge = true;
        }
    }
    if do_merge {
        match tokens.pop() {
            Some(lt) => {
                match (lt, tok) {
                    (Token::Plaintext { span: lsp }, Token::Plaintext { span: tsp }) => {
                        let ghost prefix = toks0.subrange(0, toks0.len() - 1);
                        let ghost lt0 = toks0[toks0.len() - 1];
                        let ghost tk = Token::Plaintext { span: tsp };
                        proof {
                            assert(toks0 =~= prefix.push(lt0));
                        }
                        let mut merged_chars = lsp.body;
                        crate::text::push_chars(&mut merged_chars, &tsp.body);
                        let m = Token::Plaintext {
                            span: Span { body: merged_chars, position: lsp.position },
                        };
                        proof {
                            crate::token::lemma_chain_unpush(
                                prefix,
                                lt0,
                                base.line as int,
                                base.byte_offset as int,
                            );
                            crate::token::lemma_tokens_chars_push(prefix, lt0);
                            crate::token::lemma_tokens_chars_push(prefix, m);
                            crate::token::lemma_newline_count_push(prefix, lt0);
                            crate::token::lemma_newline_count_push(prefix, m);
                            assert(crate::token::token_chars(m) == crate::token::token_chars(lt0)
                                + crate::token::token_chars(tk));
                            crate::token::lemma_chain_push(
                                prefix,
                                m,
                                base.line as int,
                                base.byte_offset as int,
                            );
                        }
                        tokens.push(m);
                        proof {
                            assert(tokens@ == prefix.push(m));
                            assert(crate::token::tokens_chars(tokens@) =~= done
                                + crate::token::token_chars(tk));
                            lemma_follows_unpush(m_g, src, off, toks0);
                            let st0 = off + crate::token::tokens_chars(prefix).len();
                            assert(token_follows_rules(m_g, src, off, toks0, toks0.len() - 1));
                            assert(toks0.subrange(0, toks0.len() - 1) =~= prefix);
                            assert(plain_run(m_g, src, st0, st0 + crate::token::token_chars(
                                lt0,
                            ).len()));
                            assert(off + done.len() == st0 + crate::token::token_chars(
                                lt0,
                            ).len());
                            lemma_plain_run_concat(
                                m_g,
                                src,
                                st0,
                                off + done.len(),
                                off + done.len() + crate::token::token_chars(tk).len(),
                            );
                            assert(crate::token::token_chars(m).len() == crate::token::token_chars(
                                lt0,
                            ).len() + crate::token::token_chars(tk).len());
                            lemma_follows_push(m_g, src, off, prefix, m);
                            assert forall|k: int|
                                0 <= k && k + 1 < tokens@.len() implies !((#[trigger] tokens@[k])
                                is Plaintext && tokens@[k + 1] is Plaintext) by {
                                if k + 1 < tokens@.len() - 1 {
                                    assert(prefix.push(m)[k] == prefix[k]);
                                    assert(prefix.push(m)[k + 1] == prefix[k + 1]);
                                    assert(tokens@[k] == prefix[k] && tokens@[k + 1] == prefix[k
                                        + 1]);
                                    assert(toks0[k] == prefix[k] && toks0[k + 1] == prefix[k + 1]);
                                } else {
                                    assert(prefix.push(m)[k] == prefix[k]);
                                    assert(tokens@[k] == prefix[k]);
                                    assert(toks0[k] == prefix[k]);
                                    assert(toks0[k + 1] == lt0);
                                    assert(!(toks0[k] is Plaintext));
                                }
                            }
                        }
                    },
                    _ => {
                        proof {
                            assert(false);
                        }
                    },
                }
            },
            None => {
                proof {
                    assert(false);
                }
            },
        }
    } else {
        proof {
            crate::token::lemma_tokens_chars_push(toks0, tok);
            crate::token::lemma_newline_count_push(toks0, tok);
            crate::token::lemma_chain_push(toks0, tok, base.line as int, base.byte_offset as int);
        }
        let ghost tk = tok;
        proof {
            lemma_follows_push(m_g, src, off, toks0, tk);
        }
        tokens.push(tok);
        proof {
            assert(tokens@ == toks0.push(tk));
            assert forall|k: int|
                0 <= k && k + 1 < tokens@.len() implies !((#[trigger] tokens@[k]) is Plaintext
                && tokens@[k + 1] is Plaintext) by {
                if k + 1 < tokens@.len() - 1 {
                    assert(toks0.push(tk)[k] == toks0[k]);
                    assert(toks0.push(tk)[k + 1] == toks0[k + 1]);
                    assert(tokens@[k] == toks0[k] && tokens@[k + 1] == toks0[k + 1]);
                } else {
                    assert(toks0.push(tk)[k] == toks0[k]);
                    assert(toks0.push(tk)[k + 1] == tk);
                    assert(tokens@[k] == toks0[k]);
                    if tk is Plaintext && toks0[k] is Plaintext {
                        assert(!do_merge);
                        assert(false);
                    }
                }
            }
        }
    }
}

/// Tokenize a whole character sequence starting at `base`.
///
/// The stream is total and lossless: the concatenation of the yielded
/// token spans is exactly the input, no two consecutive tokens are
/// plain text (adjacent plain text is merged before it is yielded),
/// every token's position chains from `base` — the byte offset
/// advances by the consumed bytes and the line number advances
/// exactly at newline tokens — and every token abides by the rule
/// priority order at its place in the stream, which determines the
/// result completely.
#[verifier::rlimit(80)]
pub fn tokenize(tm: &TermMap, s: &Vec<char>, base: Position) -> (r: TokenText)
    requires
        map_wf(*tm),
        base.byte_offset + text_bytes(s@) <= usize::MAX,
        base.line + s@.len() <= usize::MAX,
    ensures
        crate::token::tokens_chars(r.0@) == s@,
        crate::token::no_adjacent_plaintext(r.0@),
        crate::token::positions_chain(r.0@, base.line as int, base.byte_offset as int),
        stream_follows_rules(*tm, s@, 0, r.0@),
    decreases s@.len(), 2int,
{
    let mut tokens: Vec<Token> = Vec::new();
    let mut i: usize = 0;
    let mut pos = base;
    let input_len = s.len();
    proof {
        assert(s@.len() <= usize::MAX);
        assert(crate::token::tokens_chars(Seq::<Token>::empty()) == Seq::<char>::empty());
        assert(s@.subrange(0, 0) =~= Seq::<char>::empty());
        assert(crate::text::text_bytes(Seq::<char>::empty()) == 0);
        assert(crate::token::newline_count(Seq::<Token>::empty()) == 0);
    }
    while i < input_len
        invariant
            input_len == s@.len(),
            map_wf(*tm),
            i <= s@.len(),
            s@.len() <= usize::MAX,
            base.byte_offset + text_bytes(s@) <= usize::MAX,
            base.line + s@.len() <= usize::MAX,
            crate::token::newline_count(tokens@) <= i,
            pos.line == base.line + crate::token::newline_count(tokens@),
            pos.byte_offset == base.byte_offset + text_bytes(
                crate::token::tokens_chars(tokens@),
            ),
            crate::token::tokens_chars(tokens@) == s@.subrange(0, i as int),
            crate::token::no_adjacent_plaintext(tokens@),
            crate::token::positions_chain(tokens@, base.line as int, base.byte_offset as int),
            stream_follows_rules(*tm, s@, 0, tokens@),
        decreases s@.len() - i,
    {
        proof {
            crate::text::lemma_text_bytes_concat(
                s@.subrange(0, i as int),
                s@.subrange(i as int, s@.len() as int),
            );
            assert(s@.subrange(0, i as int) + s@.subrange(i as int, s@.len() as int) =~= s@);
            crate::text::lemma_text_bytes_bounds(s@.subrange(i as int, s@.len() as int));
            crate::text::lemma_text_bytes_bounds(s@.subrange(0, i as int));
            assert(scan_ctx(s@, i as int, pos));
        }
        let (tok, j) = next_raw_token(tm, s, i, pos);
        proof {
            lemma_split_bytes(s@, i as int, j as int);
            crate::text::lemma_text_bytes_bounds(s@.subrange(i as int, j as int));
            crate::text::lemma_text_bytes_bounds(s@.subrange(j as int, s@.len() as int));
        }
        let consumed = crate::text::utf8_len_range(s, i, j);
        let is_nl = matches!(&tok, Token::NewLine { .. });
        let new_pos = Position {
            line: if is_nl {
                pos.line + 1
            } else {
                pos.line
            },
            byte_offset: pos.byte_offset + consumed,
        };
        let ghost tk = tok;
        proof {
            if tk is Plaintext {
                lemma_step_plain(*tm, s@, i as int, pos, tk, j as int);
            }
        }
        push_coalesced(
            &mut tokens,
            tok,
            Ghost(*tm),
            Ghost(s@),
            Ghost(0),
            Ghost(base),
            Ghost(s@.subrange(0, i as int)),
        );
        proof {
            crate::text::lemma_text_bytes_concat(
                s@.subrange(0, i as int),
                s@.subrange(i as int, j as int),
            );
            assert(s@.subrange(0, i as int) + s@.subrange(i as int, j as int) =~= s@.subrange(
                0,
                j as int,
            ));
            assert(crate::token::tokens_chars(tokens@) =~= s@.subrange(0, j as int));
        }
        i = j;
        pos = new_pos;
    }
    proof {
        assert(s@.subrange(0, i as int) =~= s@);
    }
    TokenText(tokens)
}


/// The shared, read-only context of a parse: the term index. Built
/// once per glossary and reusable across any number of token streams.
#[derive(Debug, Clone, PartialEq, Eq)]
pub struct ParseContext {
    pub term_map: TermMap,
}

impl ParseContext {
    pub fn new(term_map: TermMap) -> (r: ParseContext)
        ensures
            r.term_map == term_map,
    {
        ParseContext { term_map }
    }

    /// A usable context: its term index is well formed.
    pub open spec fn wf(self) -> bool {
        map_wf(self.term_map)
    }

    /// One tokenization step at `i`, by the rule priority order.
    pub fn token(&self, s: &Vec<char>, i: usize, pos: Position) -> (r: (Token, usize))
        requires
            self.wf(),
            scan_ctx(s@, i as int, pos),
        ensures
            token_result_ok(s@, i as int, pos, r.0, r.1 as int),
            step_spec(self.term_map, s@, i as int, pos, r.0, r.1 as int),
    {
        next_raw_token(&self.term_map, s, i, pos)
    }

    /// The term rule alone at `i`.
    pub fn term(&self, s: &Vec<char>, i: usize, pos: Position) -> (r: Option<(Token, usize)>)
        requires
            self.wf(),
            scan_ctx(s@, i as int, pos),
        ensures
            match r {
                Some(p) => {
                    &&& has_term_match(self.term_map, s@, i as int)
                    &&& token_result_ok(s@, i as int, pos, p.0, p.1 as int)
                    &&& term_token_spec(self.term_map, s@, i as int, p.0, p.1 as int)
                },
                None => !has_term_match(self.term_map, s@, i as int),
            },
    {
        term(&self.term_map, s, i, pos)
    }

    /// The annotation rule alone at the directive marker at `i`.
    pub fn directive_annotation(&self, s: &Vec<char>, i: usize, pos: Position) -> (r: Option<
        (Token, usize),
    >)
        requires
            self.wf(),
            scan_ctx(s@, i as int, pos),
            spec_is_start_directive(s@[i as int]),
        ensures
            match r {
                Some(p) => {
                    &&& annotation_ok(s@, i as int)
                    &&& token_result_ok(s@, i as int, pos, p.0, p.1 as int)
                    &&& annotation_token_spec(s@, i as int, pos, p.0, p.1 as int)
                },
                None => !annotation_ok(s@, i as int),
            },
    {
        directive_annotation(&self.term_map, s, i, pos)
    }

    /// Tokenize a string, starting at line 1, byte offset 0.
    ///
    /// The byte measure of the position bookkeeping is exactly the
    /// UTF-8 byte length of the source, so the reported byte offsets
    /// are offsets into `text` itself.
    pub fn tokenize_str(&self, text: &str) -> (r: TokenText)
        requires
            self.wf(),
            text@.len() < usize::MAX,
        ensures
            crate::token::tokens_chars(r.0@) == text@,
            crate::token::no_adjacent_plaintext(r.0@),
            crate::token::positions_chain(r.0@, 1, 0),
            stream_follows_rules(self.term_map, text@, 0, r.0@),
    {
        let byte_len = text.as_bytes().len();
        let s = crate::text::chars_of_str(text);
        proof {
            crate::text::lemma_text_bytes_matches_encoding(text@);
            assert(text_bytes(s@) == byte_len);
        }
        tokenize(&self.term_map, &s, Position { line: 1, byte_offset: 0 })
    }

    /// Tokenize a whole input, yielding the owned token tree.
    pub fn tokenize_text(&self, s: &Vec<char>) -> (r: TokenText)
        requires
            self.wf(),
            text_bytes(s@) <= usize::MAX,
            1 + s@.len() <= usize::MAX,
        ensures
            crate::token::tokens_chars(r.0@) == s@,
            crate::token::no_adjacent_plaintext(r.0@),
            crate::token::positions_chain(r.0@, 1, 0),
            stream_follows_rules(self.term_map, s@, 0, r.0@),
    {
        tokenize(&self.term_map, s, Position { line: 1, byte_offset: 0 })
    }
}

/// A lazy, pull-based token stream over one input.
///
/// It owns the remaining-input cursor and at most one buffered
/// look-ahead token, used to merge adjacent plain text before it is
/// yielded: a caller never observes two consecutive plain text
/// tokens.
#[derive(Debug)]
pub struct TextIterator {
    pub context: ParseContext,
    pub input: Vec<char>,
    pub cursor: usize,
    pub pos: Position,
    pub lookahead: Option<Token>,
}

impl TextIterator {
    /// A usable stream state.
    pub open spec fn wf(self) -> bool {
        &&& self.context.wf()
        &&& self.cursor <= self.input@.len()
        &&& self.input@.len() <= usize::MAX
        &&& self.pos.byte_offset + text_bytes(
            self.input@.subrange(self.cursor as int, self.input@.len() as int),
        ) <= usize::MAX
        &&& self.pos.line + (self.input@.len() - self.cursor) <= usize::MAX
        &&& match self.lookahead {
            Some(t) => {
                &&& !(t is Plaintext)
                &&& token_chars(t).len() > 0
                &&& token_chars(t).len() <= self.cursor
                &&& t.spec_span().position.line + (if t is NewLine {
                    1int
                } else {
                    0int
                }) == self.pos.line
                &&& t.spec_span().position.byte_offset + text_bytes(token_chars(t))
                    == self.pos.byte_offset
                &&& step_spec(
                    self.context.term_map,
                    self.input@,
                    self.cursor - token_chars(t).len(),
                    t.spec_span().position,
                    t,
                    self.cursor as int,
                )
            },
            None => true,
        }
    }

    /// The characters the stream has not yielded yet.
    pub open spec fn pending_chars(self) -> Seq<char> {
        (match self.lookahead {
            Some(t) => token_chars(t),
            None => Seq::empty(),
        }) + self.input@.subrange(self.cursor as int, self.input@.len() as int)
    }

    /// Line of the next token to be yielded.
    pub open spec fn head_line(self) -> int {
        match self.lookahead {
            Some(t) => t.spec_span().position.line as int,
            None => self.pos.line as int,
        }
    }

    /// Byte offset of the next token to be yielded.
    pub open spec fn head_byte(self) -> int {
        match self.lookahead {
            Some(t) => t.spec_span().position.byte_offset as int,
            None => self.pos.byte_offset as int,
        }
    }

    /// A stream over `input`, starting at line 1, byte offset 0.
    pub fn new(context: ParseContext, input: Vec<char>) -> (r: TextIterator)
        requires
            context.wf(),
            text_bytes(input@) <= usize::MAX,
            1 + input@.len() <= usize::MAX,
        ensures
            r.wf(),
            r.pending_chars() == input@,
            r.head_line() == 1,
            r.head_byte() == 0,
            r.context == context,
    {
        proof {
            assert(input@.subrange(0, input@.len() as int) =~= input@);
        }
        let r = TextIterator {
            context,
            input,
            cursor: 0,
            pos: Position { line: 1, byte_offset: 0 },
            lookahead: None,
        };
        proof {
            assert(r.pending_chars() =~= r.input@);
        }
        r
    }

    /// Pull the next token.
    ///
    /// Each yielded token consumes at least one character, and the
    /// yielded spans concatenate to the input: the characters of the
    /// token plus the still-pending characters are exactly what was
    /// pending before the call. A plain text token is only yielded
    /// with a non-plain-text token (or the end of the input) behind
    /// it, so two consecutive pulls never both yield plain text.
    /// `None` comes exactly at the end of the input.
    #[verifier::rlimit(80)]
    pub fn next(&mut self) -> (r: Option<Token>)
        requires
            old(self).wf(),
        ensures
            final(self).wf(),
            final(self).context == old(self).context,
            final(self).input@ == old(self).input@,
            match r {
                Some(t) => {
                    &&& token_chars(t).len() > 0
                    &&& token_chars(t) + final(self).pending_chars() == old(self).pending_chars()
                    &&& ({
                        let st = old(self).input@.len() - old(self).pending_chars().len();
                        let en = st + token_chars(t).len();
                        if t is Plaintext {
                            plain_run(old(self).context.term_map, old(self).input@, st, en)
                        } else {
                            step_spec(
                                old(self).context.term_map,
                                old(self).input@,
                                st,
                                t.spec_span().position,
                                t,
                                en,
                            )
                        }
                    })
                    &&& t.spec_span().position.line == old(self).head_line()
                    &&& t.spec_span().position.byte_offset == old(self).head_byte()
                    &&& final(self).head_line() == old(self).head_line() + (if t is NewLine {
                        1int
                    } else {
                        0int
                    })
                    &&& final(self).head_byte() == old(self).head_byte() + text_bytes(
                        token_chars(t),
                    )
                    &&& (old(self).lookahead is Some ==> Some(t) == old(self).lookahead)
                    &&& (t is Plaintext ==> final(self).lookahead is Some
                        || final(self).pending_chars().len() == 0)
                    &&& (final(self).lookahead is Some ==> !(final(self).lookahead->0
                        is Plaintext))
                },
                None => {
                    &&& old(self).pending_chars().len() == 0
                    &&& final(self).pending_chars().len() == 0
                    &&& final(self).head_line() == old(self).head_line()
                    &&& final(self).head_byte() == old(self).head_byte()
                },
            },
    {
        let mut taken: Option<Token> = None;
        core::mem::swap(&mut taken, &mut self.lookahead);
        match taken {
            Some(t) => {
                proof {
                    assert(self.pending_chars() =~= self.input@.subrange(
                        self.cursor as int,
                        self.input@.len() as int,
                    ));
                    assert(token_chars(t) + self.pending_chars() =~= old(self).pending_chars());
                    assert(token_chars(t).len() > 0);
                }
                Some(t)
            },
            None => {
                if self.cursor == self.input.len() {
                    proof {
                        assert(old(self).pending_chars().len() == 0);
                    }
                    return None;
                }
                proof {
                    assert(scan_ctx(self.input@, self.cursor as int, self.pos));
                }
                let (tok, j) = next_raw_token(
                    &self.context.term_map,
                    &self.input,
                    self.cursor,
                    self.pos,
                );
                let new_pos = self.step_position(self.cursor, j, &tok);
                if !matches!(&tok, Token::Plaintext { .. }) {
                    let ghost old_state = *self;
                    self.cursor = j;
                    self.pos = new_pos;
                    proof {
                        lemma_split_pending(old_state.input@, old_state.cursor as int, j as int);
                        assert(token_chars(tok) + self.pending_chars() =~= old(
                            self,
                        ).pending_chars());
                        assert(token_chars(tok).len() > 0);
                    }
                    return Some(tok);
                }
                // coalesce the plain text run with one-token look-ahead
                let ghost st0 = self.cursor as int;
                proof {
                    lemma_step_plain(self.context.term_map, self.input@, st0, self.pos, tok, j as int);
                }
                let mut acc = tok;
                self.cursor = j;
                self.pos = new_pos;
                proof {
                    lemma_split_pending(old(self).input@, old(self).cursor as int, j as int);
                }
                loop
                    invariant_except_break
                        self.lookahead is None,
                        plain_run(self.context.term_map, self.input@, st0, self.cursor as int),
                        self.cursor as int == st0 + token_chars(acc).len(),
                        self.pos.line == old(self).head_line(),
                        self.pos.byte_offset == old(self).head_byte() + text_bytes(
                            token_chars(acc),
                        ),
                        token_chars(acc) + self.input@.subrange(
                            self.cursor as int,
                            self.input@.len() as int,
                        ) == old(self).pending_chars(),
                    invariant
                        self.context.wf(),
                        self.cursor <= self.input@.len(),
                        self.input@.len() <= usize::MAX,
                        self.pos.byte_offset + text_bytes(
                            self.input@.subrange(self.cursor as int, self.input@.len() as int),
                        ) <= usize::MAX,
                        self.pos.line + (self.input@.len() - self.cursor) <= usize::MAX,
                        self.input == old(self).input,
                        self.context == old(self).context,
                        st0 == self.input@.len() - old(self).pending_chars().len(),
                        acc is Plaintext,
                        token_chars(acc).len() > 0,
                        acc.spec_span().position.line == old(self).head_line(),
                        acc.spec_span().position.byte_offset == old(self).head_byte(),
                    ensures
                        self.wf(),
                        acc is Plaintext,
                        token_chars(acc).len() > 0,
                        plain_run(
                            self.context.term_map,
                            self.input@,
                            st0,
                            st0 + token_chars(acc).len(),
                        ),
                        st0 == self.input@.len() - old(self).pending_chars().len(),
                        self.input == old(self).input,
                        acc.spec_span().position.line == old(self).head_line(),
                        acc.spec_span().position.byte_offset == old(self).head_byte(),
                        token_chars(acc) + self.pending_chars() == old(self).pending_chars(),
                        self.head_line() == old(self).head_line(),
                        self.head_byte() == old(self).head_byte() + text_bytes(token_chars(acc)),
                        self.lookahead is Some || self.pending_chars().len() == 0,
                        self.lookahead is Some ==> !(self.lookahead->0 is Plaintext),
                    decreases self.input@.len() - self.cursor,
                {
                    if self.cursor == self.input.len() {
                        proof {
                            assert(self.input@.subrange(
                                self.cursor as int,
                                self.input@.len() as int,
                            ) =~= Seq::<char>::empty());
                            assert(self.pending_chars() =~= Seq::<char>::empty());
                            assert(token_chars(acc) + self.pending_chars() =~= token_chars(acc)
                                + self.input@.subrange(
                                self.cursor as int,
                                self.input@.len() as int,
                            ));
                        }
                        break ;
                    }
                    proof {
                        assert(scan_ctx(self.input@, self.cursor as int, self.pos));
                    }
                    let (tok2, j2) = next_raw_token(
                        &self.context.term_map,
                        &self.input,
                        self.cursor,
                        self.pos,
                    );
                    let new_pos2 = self.step_position(self.cursor, j2, &tok2);
                    let ghost cur0 = self.cursor as int;
                    let ghost pos0 = self.pos;
                    let ghost tok2_g = tok2;
                    let ghost acc0 = acc;
                    if !matches!(&tok2, Token::Plaintext { .. }) {
                        let ghost t2 = tok2;
                        self.cursor = j2;
                        self.pos = new_pos2;
                        self.lookahead = Some(tok2);
                        proof {
                            lemma_split_pending(self.input@, cur0, j2 as int);
                            assert(token_chars(acc) + self.pending_chars() =~= old(
                                self,
                            ).pending_chars());
                        }
                        break ;
                    }
                    match (acc, tok2) {
                        (Token::Plaintext { span: asp, .. }, Token::Plaintext { span: tsp, .. }) => {
                            let mut merged = asp.body;
                            crate::text::push_chars(&mut merged, &tsp.body);
                            acc = Token::Plaintext {
                                span: Span { body: merged, position: asp.position },
                            };
                        },
                        (a, _) => {
                            acc = a;
                            proof {
                                assert(false);
                            }
                        },
                    }
                    self.cursor = j2;
                    self.pos = new_pos2;
                    proof {
                        lemma_step_plain(
                            self.context.term_map,
                            self.input@,
                            cur0,
                            pos0,
                            tok2_g,
                            j2 as int,
                        );
                        lemma_plain_run_concat(self.context.term_map, self.input@, st0, cur0, j2 as int);
                        lemma_split_pending(self.input@, cur0, j2 as int);
                        crate::text::lemma_text_bytes_concat(
                            token_chars(acc0),
                            self.input@.subrange(cur0, j2 as int),
                        );
                        assert(token_chars(acc) =~= token_chars(acc0) + self.input@.subrange(
                            cur0,
                            j2 as int,
                        ));
                        assert(token_chars(acc) + self.input@.subrange(
                            self.cursor as int,
                            self.input@.len() as int,
                        ) =~= token_chars(acc0) + (self.input@.subrange(cur0, j2 as int)
                            + self.input@.subrange(j2 as int, self.input@.len() as int)));
                        assert(self.input@.subrange(cur0, j2 as int) + self.input@.subrange(
                            j2 as int,
                            self.input@.len() as int,
                        ) =~= self.input@.subrange(cur0, self.input@.len() as int));
                    }
                }
                Some(acc)
            },
        }
    }

    /// The position after consuming `[i, j)`, where the consumed text
    /// is the given token's span.
    fn step_position(&self, i: usize, j: usize, t: &Token) -> (r: Position)
        requires
            self.wf(),
            self.cursor <= i < j <= self.input@.len(),
            i == self.cursor,
            token_chars(*t) == self.input@.subrange(i as int, j as int),
        ensures
            r.line == self.pos.line + (if *t is NewLine {
                1int
            } else {
                0int
            }),
            r.byte_offset == self.pos.byte_offset + text_bytes(token_chars(*t)),
    {
        proof {
            lemma_split_pending(self.input@, i as int, j as int);
            crate::text::lemma_text_bytes_bounds(
                self.input@.subrange(j as int, self.input@.len() as int),
            );
            crate::text::lemma_text_bytes_bounds(self.input@.subrange(i as int, j as int));
        }
        let consumed = crate::text::utf8_len_range(&self.input, i, j);
        let is_nl = matches!(t, Token::NewLine { .. });
        Position {
            line: if is_nl {
                self.pos.line + 1
            } else {
                self.pos.line
            },
            byte_offset: self.pos.byte_offset + consumed,
        }
    }

    /// Drain the stream into an owned token tree.
    ///
    /// The tree covers exactly what was pending, holds no two
    /// adjacent plain text tokens, its positions chain from the
    /// stream's head position, and every token abides by the rule
    /// priority order at its place in the input.
    #[verifier::rlimit(80)]
    pub fn collect_text(&mut self) -> (r: TokenText)
        requires
            old(self).wf(),
        ensures
            final(self).wf(),
            crate::token::tokens_chars(r.0@) == old(self).pending_chars(),
            crate::token::no_adjacent_plaintext(r.0@),
            crate::token::positions_chain(r.0@, old(self).head_line(), old(self).head_byte()),
            stream_follows_rules(
                old(self).context.term_map,
                old(self).input@,
                old(self).input@.len() - old(self).pending_chars().len(),
                r.0@,
            ),
            final(self).pending_chars().len() == 0,
    {
        let ghost off0 = old(self).input@.len() - old(self).pending_chars().len();
        let mut tokens: Vec<Token> = Vec::new();
        proof {
            assert(crate::token::tokens_chars(Seq::<Token>::empty()) == Seq::<char>::empty());
            assert(crate::token::newline_count(Seq::<Token>::empty()) == 0);
        }
        loop
            invariant
                self.wf(),
                self.input@ == old(self).input@,
                self.context == old(self).context,
                off0 == old(self).input@.len() - old(self).pending_chars().len(),
                stream_follows_rules(old(self).context.term_map, old(self).input@, off0, tokens@),
                crate::token::tokens_chars(tokens@) + self.pending_chars() == old(
                    self,
                ).pending_chars(),
                crate::token::no_adjacent_plaintext(tokens@),
                crate::token::positions_chain(
                    tokens@,
                    old(self).head_line(),
                    old(self).head_byte(),
                ),
                self.head_line() == old(self).head_line() + crate::token::newline_count(tokens@),
                self.head_byte() == old(self).head_byte() + text_bytes(
                    crate::token::tokens_chars(tokens@),
                ),
                tokens@.len() > 0 && tokens@.last() is Plaintext ==> self.lookahead is Some
                    || self.pending_chars().len() == 0,
                self.lookahead is Some ==> !(self.lookahead->0 is Plaintext),
            decreases self.pending_chars().len(),
        {
            let ghost toks0 = tokens@;
            let ghost pend0 = self.pending_chars();
            match self.next() {
                None => {
                    proof {
                        assert(crate::token::tokens_chars(tokens@) =~= old(
                            self,
                        ).pending_chars());
                    }
                    return TokenText(tokens);
                },
                Some(t) => {
                    proof {
                        crate::token::lemma_tokens_chars_push(toks0, t);
                        crate::token::lemma_newline_count_push(toks0, t);
                        crate::token::lemma_chain_push(
                            toks0,
                            t,
                            old(self).head_line(),
                            old(self).head_byte(),
                        );
                        crate::text::lemma_text_bytes_concat(
                            crate::token::tokens_chars(toks0),
                            token_chars(t),
                        );
                        lemma_follows_push(
                            old(self).context.term_map,
                            old(self).input@,
                            off0,
                            toks0,
                            t,
                        );
                    }
                    let ghost tg = t;
                    tokens.push(t);
                    proof {
                        assert(tokens@ == toks0.push(tg));
                        assert(crate::token::tokens_chars(tokens@) + self.pending_chars()
                            =~= old(self).pending_chars());
                        assert forall|k: int|
                            0 <= k && k + 1 < tokens@.len() implies !((#[trigger] tokens@[k])
                            is Plaintext && tokens@[k + 1] is Plaintext) by {
                            if k + 1 < tokens@.len() - 1 {
                                assert(toks0.push(tg)[k] == toks0[k]);
                                assert(toks0.push(tg)[k + 1] == toks0[k + 1]);
                            } else {
                                assert(toks0.push(tg)[k] == toks0[k]);
                                assert(toks0.push(tg)[k + 1] == tg);
                                if toks0[k] is Plaintext && tg is Plaintext {
                                    assert(toks0.last() is Plaintext);
                                    assert(false);
                                }
                            }
                        }
                    }
                },
            }
        }
    }
}

/// Splitting the remaining input at `j` splits its text and bytes.
proof fn lemma_split_pending(s: Seq<char>, i: int, j: int)
    requires
        0 <= i <= j <= s.len(),
    ensures
        s.subrange(i, s.len() as int) == s.subrange(i, j) + s.subrange(j, s.len() as int),
        text_bytes(s.subrange(i, s.len() as int)) == text_bytes(s.subrange(i, j)) + text_bytes(
            s.subrange(j, s.len() as int),
        ),
{
    assert(s.subrange(i, s.len() as int) =~= s.subrange(i, j) + s.subrange(j, s.len() as int));
    crate::text::lemma_text_bytes_concat(s.subrange(i, j), s.subrange(j, s.len() as int));
}

} // verus!
