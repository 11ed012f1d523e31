//! Text measures used by position bookkeeping and size bounds.
//!
//! Positions carry byte offsets into the UTF-8 encoded source, so the
//! byte width of a character sequence is defined here, together with
//! the character count that excludes variation selectors (the count
//! used by the ruby size bounds).

use vstd::prelude::*;

use vstd::std_specs::iter::IteratorSpec;

use crate::character::is_kanji_variation_selector;
use crate::character::spec_is_kanji_variation_selector;

verus! {

/// Number of bytes of the UTF-8 encoding of one Unicode scalar value.
pub open spec fn char_utf8_len(c: char) -> int {
    if (c as u32) < 0x80 {
        1
    } else if (c as u32) < 0x800 {
        2
    } else if (c as u32) < 0x10000 {
        3
    } else {
        4
    }
}

/// Number of bytes of the UTF-8 encoding of a character sequence.
pub open spec fn text_bytes(s: Seq<char>) -> int
    decreases s.len(),
{
    if s.len() == 0 {
        0
    } else {
        char_utf8_len(s[0]) + text_bytes(s.subrange(1, s.len() as int))
    }
}

/// Number of characters of a sequence, variation selectors excluded.
pub open spec fn nvs_count(s: Seq<char>) -> int
    decreases s.len(),
{
    if s.len() == 0 {
        0
    } else {
        (if spec_is_kanji_variation_selector(s[0]) {
            0int
        } else {
            1int
        }) + nvs_count(s.subrange(1, s.len() as int))
    }
}

pub proof fn lemma_text_bytes_singleton(one: Seq<char>)
    requires
        one.len() == 1,
    ensures
        text_bytes(one) == char_utf8_len(one[0]),
{
    assert(one.subrange(1, 1) =~= Seq::<char>::empty());
    assert(text_bytes(Seq::<char>::empty()) == 0);
}

pub proof fn lemma_nvs_count_singleton(one: Seq<char>)
    requires
        one.len() == 1,
    ensures
        nvs_count(one) == if spec_is_kanji_variation_selector(one[0]) {
            0int
        } else {
            1int
        },
{
    assert(one.subrange(1, 1) =~= Seq::<char>::empty());
    assert(nvs_count(Seq::<char>::empty()) == 0);
}

pub proof fn lemma_text_bytes_bounds(s: Seq<char>)
    ensures
        s.len() <= text_bytes(s) <= 4 * s.len(),
    decreases s.len(),
{
    if s.len() > 0 {
        lemma_text_bytes_bounds(s.subrange(1, s.len() as int));
    }
}

pub proof fn lemma_text_bytes_concat(a: Seq<char>, b: Seq<char>)
    ensures
        text_bytes(a + b) == text_bytes(a) + text_bytes(b),
    decreases a.len(),
{
    if a.len() == 0 {
        assert(a + b =~= b);
    } else {
        lemma_text_bytes_concat(a.subrange(1, a.len() as int), b);
        assert((a + b).subrange(1, (a + b).len() as int) =~= a.subrange(1, a.len() as int) + b);
    }
}

pub proof fn lemma_nvs_count_bounds(s: Seq<char>)
    ensures
        0 <= nvs_count(s) <= s.len(),
    decreases s.len(),
{
    if s.len() > 0 {
        lemma_nvs_count_bounds(s.subrange(1, s.len() as int));
    }
}

pub proof fn lemma_nvs_count_concat(a: Seq<char>, b: Seq<char>)
    ensures
        nvs_count(a + b) == nvs_count(a) + nvs_count(b),
    decreases a.len(),
{
    if a.len() == 0 {
        assert(a + b =~= b);
    } else {
        lemma_nvs_count_concat(a.subrange(1, a.len() as int), b);
        assert((a + b).subrange(1, (a + b).len() as int) =~= a.subrange(1, a.len() as int) + b);
    }
}

/// The byte width of one character, computed from its code point.
pub fn utf8_len_of_char(c: char) -> (r: usize)
    ensures
        r == char_utf8_len(c),
{
    let u = c as u32;
    if u < 0x80 {
        1
    } else if u < 0x800 {
        2
    } else if u < 0x10000 {
        3
    } else {
        4
    }
}

/// The byte width of the character range `[from, to)` of `s`.
pub fn utf8_len_range(s: &Vec<char>, from: usize, to: usize) -> (r: usize)
    requires
        from <= to <= s@.len(),
        text_bytes(s@.subrange(from as int, to as int)) <= usize::MAX,
    ensures
        r == text_bytes(s@.subrange(from as int, to as int)),
{
    let mut r: usize = 0;
    let mut k: usize = from;
    while k < to
        invariant
            from <= k <= to <= s@.len(),
            text_bytes(s@.subrange(from as int, to as int)) <= usize::MAX,
            r == text_bytes(s@.subrange(from as int, k as int)),
        decreases to - k,
    {
        proof {
            let done = s@.subrange(from as int, k as int);
            let one = s@.subrange(k as int, k + 1);
            lemma_text_bytes_concat(done, one);
            assert(done + one =~= s@.subrange(from as int, k + 1));
            lemma_text_bytes_singleton(one);
            let rest = s@.subrange(k + 1, to as int);
            lemma_text_bytes_concat(s@.subrange(from as int, k + 1), rest);
            assert(s@.subrange(from as int, k + 1) + rest =~= s@.subrange(from as int, to as int));
            lemma_text_bytes_bounds(rest);
        }
        r = r + utf8_len_of_char(s[k]);
        k = k + 1;
    }
    proof {
        assert(s@.subrange(from as int, to as int) =~= s@.subrange(from as int, k as int));
    }
    r
}

/// The character count of the range `[from, to)` of `s`, variation
/// selectors excluded.
pub fn nvs_count_range(s: &Vec<char>, from: usize, to: usize) -> (r: usize)
    requires
        from <= to <= s@.len(),
    ensures
        r == nvs_count(s@.subrange(from as int, to as int)),
{
    let mut r: usize = 0;
    let mut k: usize = from;
    while k < to
        invariant
            from <= k <= to <= s@.len(),
            r == nvs_count(s@.subrange(from as int, k as int)),
            r <= k - from,
        decreases to - k,
    {
        proof {
            let done = s@.subrange(from as int, k as int);
            let one = s@.subrange(k as int, k + 1);
            lemma_nvs_count_concat(done, one);
            assert(done + one =~= s@.subrange(from as int, k + 1));
            lemma_nvs_count_singleton(one);
        }
        if !is_kanji_variation_selector(s[k]) {
            r = r + 1;
        }
        k = k + 1;
    }
    proof {
        assert(s@.subrange(from as int, to as int) =~= s@.subrange(from as int, k as int));
    }
    r
}

/// Copy of the character range `[from, to)` of `s`.
pub fn copy_range(s: &Vec<char>, from: usize, to: usize) -> (r: Vec<char>)
    requires
        from <= to <= s@.len(),
    ensures
        r@ == s@.subrange(from as int, to as int),
{
    let mut r: Vec<char> = Vec::new();
    let mut k: usize = from;
    while k < to
        invariant
            from <= k <= to <= s@.len(),
            r@ == s@.subrange(from as int, k as int),
        decreases to - k,
    {
        r.push(s[k]);
        proof {
            assert(r@ =~= s@.subrange(from as int, k + 1));
        }
        k = k + 1;
    }
    proof {
        assert(r@ =~= s@.subrange(from as int, to as int));
    }
    r
}

/// Append every character of `src` to `dst`.
pub fn push_chars(dst: &mut Vec<char>, src: &Vec<char>)
    ensures
        final(dst)@ == old(dst)@ + src@,
{
    let mut k: usize = 0;
    while k < src.len()
        invariant
            k <= src@.len(),
            dst@ == old(dst)@ + src@.subrange(0, k as int),
        decreases src@.len() - k,
    {
        dst.push(src[k]);
        proof {
            assert(old(dst)@ + src@.subrange(0, k + 1) =~= (old(dst)@ + src@.subrange(
                0,
                k as int,
            )).push(src@[k as int]));
        }
        k = k + 1;
    }
    proof {
        assert(src@.subrange(0, k as int) =~= src@);
    }
}

/// Relies on `String::push`, which appends the given character to the
/// end of the string.
#[verifier::external_body]
fn push_char(s: &mut String, c: char)
    ensures
        final(s)@ == old(s)@.push(c),
{
    s.push(c)
}

/// The characters of `v`, as an owned string.
pub fn string_from_chars(v: &Vec<char>) -> (r: String)
    ensures
        r@ == v@,
{
    let mut r = String::new();
    let mut k: usize = 0;
    while k < v.len()
        invariant
            k <= v@.len(),
            r@ == v@.subrange(0, k as int),
        decreases v@.len() - k,
    {
        push_char(&mut r, v[k]);
        proof {
            assert(v@.subrange(0, k as int).push(v@[k as int]) =~= v@.subrange(0, k + 1));
        }
        k = k + 1;
    }
    proof {
        assert(v@.subrange(0, k as int) =~= v@);
    }
    r
}

/// The characters of `s`, as a vector of Unicode scalar values.
pub fn chars_of_str(s: &str) -> (r: Vec<char>)
    ensures
        r@ == s@,
{
    broadcast use vstd::string::next_postcondition;
    broadcast use vstd::string::axiom_spec_iter;

    let mut it = s.chars();
    let mut r: Vec<char> = Vec::new();
    loop
        invariant
            it.obeys_prophetic_iter_laws(),
            IteratorSpec::decrease(&it) is Some,
            r@ + IteratorSpec::remaining(&it) == s@,
        decreases IteratorSpec::decrease(&it)->0,
    {
        match it.next() {
            Some(c) => {
                r.push(c);
            },
            None => {
                proof {
                    assert(r@ =~= s@);
                }
                return r;
            },
        }
    }
}


/// The byte measure used for positions is exactly the length of the
/// UTF-8 encoding: byte offsets computed over characters agree with
/// the byte offsets of the encoded source text.
pub proof fn lemma_text_bytes_matches_encoding(s: Seq<char>)
    ensures
        text_bytes(s) == vstd::utf8::encode_utf8(s).len(),
    decreases s.len(),
{
    if s.len() > 0 {
        lemma_text_bytes_matches_encoding(s.drop_first());
        assert(s.subrange(1, s.len() as int) =~= s.drop_first());
        vstd::utf8::char_is_scalar(s[0]);
        let u = s[0] as u32;
        if u < 0x80 {
            assert(vstd::utf8::encode_scalar(u).len() == 1);
        } else if u < 0x800 {
            assert(vstd::utf8::encode_scalar(u).len() == 2);
        } else if u < 0x10000 {
            assert(vstd::utf8::encode_scalar(u).len() == 3);
        } else {
            assert(vstd::utf8::encode_scalar(u).len() == 4);
        }
    }
}

} // verus!
