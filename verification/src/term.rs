//! Glossary terms and the lookup index for greedy longest match.
//!
//! Terms are grouped by the first character of their body; groups are
//! kept sorted by that character, and the terms of a group are kept
//! sorted so that lookup tests candidates longest first (character
//! count without variation selectors), with the body text and then the
//! identifier as content-based tie breakers. The resulting index
//! depends only on which terms were supplied, not on their order.

use vstd::prelude::*;

use crate::text::nvs_count;
use crate::text::nvs_count_range;
use crate::text::chars_of_str;
use crate::token::Id;

verus! {

/// A glossary entry: an identifier, the matched body text, its
/// reading, a description, and whether a detail page exists.
#[derive(Debug, Clone, PartialEq, Eq)]
pub struct Term {
    pub id: Id,
    pub body: Vec<char>,
    pub ruby: Vec<char>,
    pub description: Vec<char>,
    pub has_detail: bool,
}

impl Term {
    pub fn new(id: Id, body: String, ruby: String, description: String, has_detail: bool) -> (r:
        Term)
        ensures
            r.id == id,
            r.body@ == body@,
            r.ruby@ == ruby@,
            r.description@ == description@,
            r.has_detail == has_detail,
    {
        Term {
            id,
            body: chars_of_str(body.as_str()),
            ruby: chars_of_str(ruby.as_str()),
            description: chars_of_str(description.as_str()),
            has_detail,
        }
    }

    pub fn id(&self) -> (r: &Id)
        ensures
            *r == self.id,
    {
        &self.id
    }

    pub fn body(&self) -> (r: &Vec<char>)
        ensures
            *r == self.body,
    {
        &self.body
    }

    pub fn ruby(&self) -> (r: &Vec<char>)
        ensures
            *r == self.ruby,
    {
        &self.ruby
    }

    pub fn description(&self) -> (r: &Vec<char>)
        ensures
            *r == self.description,
    {
        &self.description
    }

    pub fn has_detail(&self) -> (r: bool)
        ensures
            r == self.has_detail,
    {
        self.has_detail
    }
}

/// A term is usable by the index when its body is not empty.
pub open spec fn term_wf(t: Term) -> bool {
    t.body@.len() > 0
}

/// Lexicographic order on character sequences, by scalar value;
/// a proper prefix comes before its extensions.
pub open spec fn lex_le(a: Seq<char>, b: Seq<char>) -> bool
    decreases a.len(),
{
    if a.len() == 0 {
        true
    } else if b.len() == 0 {
        false
    } else if a[0] < b[0] {
        true
    } else if b[0] < a[0] {
        false
    } else {
        lex_le(a.subrange(1, a.len() as int), b.subrange(1, b.len() as int))
    }
}

pub proof fn lemma_lex_le_refl(a: Seq<char>)
    ensures
        lex_le(a, a),
    decreases a.len(),
{
    if a.len() > 0 {
        lemma_lex_le_refl(a.subrange(1, a.len() as int));
    }
}

pub proof fn lemma_lex_le_total(a: Seq<char>, b: Seq<char>)
    ensures
        lex_le(a, b) || lex_le(b, a),
    decreases a.len(),
{
    if a.len() > 0 && b.len() > 0 && a[0] == b[0] {
        lemma_lex_le_total(a.subrange(1, a.len() as int), b.subrange(1, b.len() as int));
    }
}

pub proof fn lemma_lex_le_antisym(a: Seq<char>, b: Seq<char>)
    requires
        lex_le(a, b),
        lex_le(b, a),
    ensures
        a == b,
    decreases a.len(),
{
    if a.len() == 0 {
        assert(b.len() == 0);
        assert(a =~= b);
    } else {
        assert(b.len() > 0);
        assert(a[0] == b[0]);
        lemma_lex_le_antisym(a.subrange(1, a.len() as int), b.subrange(1, b.len() as int));
        assert(a.subrange(1, a.len() as int).len() == b.subrange(1, b.len() as int).len());
        assert(a.len() == b.len());
        assert forall|i: int| 0 <= i < a.len() implies a[i] == b[i] by {
            if i >= 1 {
                assert(a[i] == a.subrange(1, a.len() as int)[i - 1]);
                assert(b[i] == b.subrange(1, b.len() as int)[i - 1]);
            }
        }
        assert(a =~= b);
    }
}

pub proof fn lemma_lex_le_trans(a: Seq<char>, b: Seq<char>, c: Seq<char>)
    requires
        lex_le(a, b),
        lex_le(b, c),
    ensures
        lex_le(a, c),
    decreases a.len(),
{
    if a.len() > 0 {
        assert(b.len() > 0);
        if c.len() > 0 && a[0] == b[0] && b[0] == c[0] {
            lemma_lex_le_trans(
                a.subrange(1, a.len() as int),
                b.subrange(1, b.len() as int),
                c.subrange(1, c.len() as int),
            );
        }
    }
}

/// The order in which a group keeps its terms: larger character count
/// first; among equal counts the body text decides, and among equal
/// bodies the identifier decides. A total order on distinct
/// (body, id) pairs, so the group order does not depend on the order
/// in which the terms were supplied.
pub open spec fn term_precedes(a: Term, b: Term) -> bool {
    if nvs_count(a.body@) != nvs_count(b.body@) {
        nvs_count(a.body@) > nvs_count(b.body@)
    } else if a.body@ != b.body@ {
        lex_le(a.body@, b.body@)
    } else {
        lex_le(a.id.value@, b.id.value@)
    }
}

pub proof fn lemma_term_precedes_refl(a: Term)
    ensures
        term_precedes(a, a),
{
    lemma_lex_le_refl(a.id.value@);
}

pub proof fn lemma_term_precedes_total(a: Term, b: Term)
    ensures
        term_precedes(a, b) || term_precedes(b, a),
{
    lemma_lex_le_total(a.body@, b.body@);
    lemma_lex_le_total(a.id.value@, b.id.value@);
}

pub proof fn lemma_term_precedes_trans(a: Term, b: Term, c: Term)
    requires
        term_precedes(a, b),
        term_precedes(b, c),
    ensures
        term_precedes(a, c),
{
    if nvs_count(a.body@) == nvs_count(b.body@) && nvs_count(b.body@) == nvs_count(c.body@) {
        if a.body@ != b.body@ && b.body@ != c.body@ {
            lemma_lex_le_trans(a.body@, b.body@, c.body@);
            if a.body@ == c.body@ {
                lemma_lex_le_antisym(a.body@, b.body@);
            }
        } else if a.body@ == b.body@ && b.body@ != c.body@ {
            assert(lex_le(b.body@, c.body@));
        } else if a.body@ != b.body@ && b.body@ == c.body@ {
            assert(lex_le(a.body@, b.body@));
        } else {
            lemma_lex_le_trans(a.id.value@, b.id.value@, c.id.value@);
        }
    }
}

/// If two sequences agree on their first `k` characters, the order is
/// decided by the remainders.
proof fn lemma_lex_le_skip(a: Seq<char>, b: Seq<char>, k: int)
    requires
        0 <= k <= a.len(),
        k <= b.len(),
        forall|i: int| 0 <= i < k ==> a[i] == b[i],
    ensures
        lex_le(a, b) == lex_le(a.subrange(k, a.len() as int), b.subrange(k, b.len() as int)),
    decreases k,
{
    if k == 0 {
        assert(a.subrange(0, a.len() as int) =~= a);
        assert(b.subrange(0, b.len() as int) =~= b);
    } else {
        assert(a.len() > 0 && b.len() > 0 && a[0] == b[0]);
        let a1 = a.subrange(1, a.len() as int);
        let b1 = b.subrange(1, b.len() as int);
        lemma_lex_le_skip(a1, b1, k - 1);
        assert(a1.subrange(k - 1, a1.len() as int) =~= a.subrange(k, a.len() as int));
        assert(b1.subrange(k - 1, b1.len() as int) =~= b.subrange(k, b.len() as int));
    }
}

/// Code-point lexicographic comparison of two character vectors.
pub fn lex_le_chars(a: &Vec<char>, b: &Vec<char>) -> (r: bool)
    ensures
        r == lex_le(a@, b@),
{
    let mut k: usize = 0;
    loop
        invariant
            k <= a@.len(),
            k <= b@.len(),
            forall|i: int| 0 <= i < k ==> a@[i] == b@[i],
        decreases a@.len() - k,
    {
        proof {
            lemma_lex_le_skip(a@, b@, k as int);
        }
        if k >= a.len() {
            proof {
                assert(a@.subrange(k as int, a@.len() as int).len() == 0);
            }
            return true;
        }
        if k >= b.len() {
            proof {
                assert(b@.subrange(k as int, b@.len() as int).len() == 0);
                assert(a@.subrange(k as int, a@.len() as int).len() > 0);
            }
            return false;
        }
        proof {
            assert(a@.subrange(k as int, a@.len() as int)[0] == a@[k as int]);
            assert(b@.subrange(k as int, b@.len() as int)[0] == b@[k as int]);
        }
        if a[k] < b[k] {
            return true;
        }
        if b[k] < a[k] {
            return false;
        }
        k = k + 1;
    }
}

/// Whether `a` comes before (or equals) `b` in group order.
pub fn term_precedes_exec(a: &Term, b: &Term) -> (r: bool)
    ensures
        r == term_precedes(*a, *b),
{
    let ca = nvs_count_range(&a.body, 0, a.body.len());
    let cb = nvs_count_range(&b.body, 0, b.body.len());
    proof {
        assert(a.body@.subrange(0, a.body@.len() as int) =~= a.body@);
        assert(b.body@.subrange(0, b.body@.len() as int) =~= b.body@);
    }
    if ca != cb {
        return ca > cb;
    }
    let body_le = lex_le_chars(&a.body, &b.body);
    let body_ge = lex_le_chars(&b.body, &a.body);
    if !(body_le && body_ge) {
        proof {
            if a.body@ == b.body@ {
                lemma_lex_le_refl(a.body@);
            }
        }
        return body_le;
    }
    proof {
        lemma_lex_le_antisym(a.body@, b.body@);
    }
    let ai = chars_of_str(a.id.value.as_str());
    let bi = chars_of_str(b.id.value.as_str());
    lex_le_chars(&ai, &bi)
}

/// Whether `body` occurs in `input` starting at `from`.
pub open spec fn prefix_at(body: Seq<char>, input: Seq<char>, from: int) -> bool {
    &&& 0 <= from
    &&& from + body.len() <= input.len()
    &&& input.subrange(from, from + body.len()) == body
}

/// Whether the characters of `body` occur in `input` starting at `from`.
pub fn is_prefix_at(body: &Vec<char>, input: &Vec<char>, from: usize) -> (r: bool)
    requires
        from <= input@.len(),
    ensures
        r == prefix_at(body@, input@, from as int),
{
    if input.len() - from < body.len() {
        proof {
            assert(!prefix_at(body@, input@, from as int));
        }
        return false;
    }
    let mut k: usize = 0;
    while k < body.len()
        invariant
            k <= body@.len(),
            from + body@.len() <= input@.len(),
            input@.len() <= usize::MAX,
            forall|i: int| 0 <= i < k ==> input@[from + i] == body@[i],
        decreases body@.len() - k,
    {
        proof {
            assert(from + k < input@.len());
        }
        if input[from + k] != body[k] {
            proof {
                assert(input@.subrange(from as int, from + body@.len())[k as int] == input@[from
                    + k]);
                assert(!prefix_at(body@, input@, from as int));
            }
            return false;
        }
        k = k + 1;
    }
    proof {
        assert(input@.subrange(from as int, from + body@.len()) =~= body@);
    }
    true
}

/// One bucket of the index: the terms whose body starts with `key`,
/// kept in group order.
#[derive(Debug, Clone, PartialEq, Eq)]
pub struct TermGroup {
    pub key: char,
    pub terms: Vec<Term>,
}

/// The lookup index: buckets keyed by the first character of the
/// term body, kept in strictly ascending key order.
#[derive(Debug, Clone, PartialEq, Eq)]
pub struct TermMap {
    pub groups: Vec<TermGroup>,
}

/// Whether the index holds the term `t`.
pub open spec fn map_contains(m: TermMap, t: Term) -> bool {
    exists|j: int| 0 <= j < m.groups@.len() && (#[trigger] m.groups@[j]).terms@.contains(t)
}

/// A well-formed bucket: every term is usable, starts with the
/// bucket's key, and the terms are in group order.
pub open spec fn group_wf(g: TermGroup) -> bool {
    &&& forall|k: int|
        0 <= k < g.terms@.len() ==> term_wf(#[trigger] g.terms@[k]) && g.terms@[k].body@[0]
            == g.key
    &&& forall|i: int, j: int|
        0 <= i < j < g.terms@.len() ==> term_precedes(#[trigger] g.terms@[i], #[trigger] g.terms@[j])
}

/// A well-formed index: well-formed buckets with strictly ascending
/// keys.
pub open spec fn map_wf(m: TermMap) -> bool {
    &&& forall|j: int| 0 <= j < m.groups@.len() ==> group_wf(#[trigger] m.groups@[j])
    &&& forall|i: int, j: int|
        0 <= i < j < m.groups@.len() ==> (#[trigger] m.groups@[i]).key
            < (#[trigger] m.groups@[j]).key
}

/// Inserting into a sequence adds exactly that element to the
/// membership.
proof fn lemma_insert_contains(s: Seq<Term>, p: int, t: Term, u: Term)
    requires
        0 <= p <= s.len(),
    ensures
        s.insert(p, t).contains(u) <==> (s.contains(u) || u == t),
{
    s.insert_ensures(p, t);
    let n = s.insert(p, t);
    if n.contains(u) {
        let k = choose|k: int| 0 <= k < n.len() && n[k] == u;
        if k < p {
            assert(s[k] == u);
            assert(s.contains(u));
        } else if k == p {
            assert(u == t);
        } else {
            assert(s[k - 1] == u);
            assert(s.contains(u));
        }
    }
    if s.contains(u) {
        let k = choose|k: int| 0 <= k < s.len() && s[k] == u;
        if k < p {
            assert(n[k] == u);
        } else {
            assert(n[k + 1] == u);
        }
        assert(n.contains(u));
    }
    if u == t {
        assert(n[p] == u);
        assert(n.contains(u));
    }
}

/// Insert `t` into a bucket's term vector, keeping the group order.
fn insert_sorted(terms: &mut Vec<Term>, key: char, t: Term)
    requires
        term_wf(t),
        t.body@.len() > 0 && t.body@[0] == key,
        forall|k: int|
            0 <= k < old(terms)@.len() ==> term_wf(#[trigger] old(terms)@[k])
                && old(terms)@[k].body@[0] == key,
        forall|i: int, j: int|
            0 <= i < j < old(terms)@.len() ==> term_precedes(
                #[trigger] old(terms)@[i],
                #[trigger] old(terms)@[j],
            ),
    ensures
        forall|k: int|
            0 <= k < final(terms)@.len() ==> term_wf(#[trigger] final(terms)@[k])
                && final(terms)@[k].body@[0] == key,
        forall|i: int, j: int|
            0 <= i < j < final(terms)@.len() ==> term_precedes(
                #[trigger] final(terms)@[i],
                #[trigger] final(terms)@[j],
            ),
        forall|u: Term| final(terms)@.contains(u) <==> (old(terms)@.contains(u) || u == t),
{
    let ghost s0 = terms@;
    let mut p: usize = 0;
    while p < terms.len() && term_precedes_exec(&terms[p], &t)
        invariant
            p <= terms@.len(),
            terms@ == s0,
            forall|i: int| 0 <= i < p ==> term_precedes(#[trigger] terms@[i], t),
        decreases terms@.len() - p,
    {
        p = p + 1;
    }
    proof {
        if (p as int) < s0.len() {
            lemma_term_precedes_total(s0[p as int], t);
        }
    }
    terms.insert(p, t);
    proof {
        s0.insert_ensures(p as int, t);
        let s1 = terms@;
        assert(s1 == s0.insert(p as int, t));
        assert forall|k: int| 0 <= k < s1.len() implies term_wf(#[trigger] s1[k]) && s1[k].body@[0]
            == key by {
            if k < p {
                assert(s1[k] == s0[k]);
            } else if k == p {
                assert(s1[k] == t);
            } else {
                assert(s1[k] == s0[k - 1]);
            }
        }
        assert forall|i: int, j: int| 0 <= i < j < s1.len() implies term_precedes(
            #[trigger] s1[i],
            #[trigger] s1[j],
        ) by {
            if j < p {
                assert(s1[i] == s0[i] && s1[j] == s0[j]);
            } else if i < p && j == p {
                assert(s1[i] == s0[i] && s1[j] == t);
            } else if i < p && j > p {
                assert(s1[i] == s0[i] && s1[j] == s0[j - 1]);
                if j - 1 > i {
                    assert(term_precedes(s0[i], s0[j - 1]));
                } else {
                    assert(j - 1 == i);
                    assert(term_precedes(s0[i], t));
                    lemma_term_precedes_total(s0[i], t);
                    assert(s0[j - 1] == s0[i]);
                    lemma_term_precedes_refl(s0[i]);
                }
            } else if i == p {
                assert(s1[i] == t && s1[j] == s0[j - 1]);
                assert(term_precedes(t, s0[p as int]));
                if j - 1 > p {
                    lemma_term_precedes_trans(t, s0[p as int], s0[j - 1]);
                }
            } else {
                assert(s1[i] == s0[i - 1] && s1[j] == s0[j - 1]);
            }
        }
        assert forall|u: Term| s1.contains(u) <==> (s0.contains(u) || u == t) by {
            lemma_insert_contains(s0, p as int, t, u);
        }
    }
}

/// Insert `t` into the index, creating its bucket if needed.
fn insert_term(m: &mut TermMap, t: Term)
    requires
        term_wf(t),
        map_wf(*old(m)),
    ensures
        map_wf(*final(m)),
        forall|u: Term| map_contains(*final(m), u) <==> (map_contains(*old(m), u) || u == t),
{
    let c = t.body[0];
    let ghost m0 = *m;
    let ghost g0 = m.groups@;
    let mut p: usize = 0;
    while p < m.groups.len() && m.groups[p].key < c
        invariant
            p <= m.groups@.len(),
            m.groups@ == g0,
            forall|i: int| 0 <= i < p ==> (#[trigger] g0[i]).key < c,
        decreases m.groups@.len() - p,
    {
        p = p + 1;
    }
    if p < m.groups.len() && m.groups[p].key == c {
        let mut g = m.groups.remove(p);
        proof {
            assert(g == g0[p as int]);
            assert(group_wf(g0[p as int]));
        }
        insert_sorted(&mut g.terms, c, t);
        m.groups.insert(p, g);
        proof {
            g0.remove_ensures(p as int);
            g0.remove(p as int).insert_ensures(p as int, g);
            let g1 = m.groups@;
            assert(g1 == g0.remove(p as int).insert(p as int, g));
            assert(g1.len() == g0.len());
            assert forall|j: int| 0 <= j < g1.len() implies #[trigger] g1[j] == (if j == p {
                g
            } else {
                g0[j]
            }) by {
                if j < p {
                    assert(g0.remove(p as int)[j] == g0[j]);
                } else if j > p {
                    assert(g0.remove(p as int)[j - 1] == g0[j]);
                }
            }
            assert(group_wf(g));
            assert forall|j: int| 0 <= j < g1.len() implies group_wf(#[trigger] g1[j]) by {
                if j != p {
                    assert(g1[j] == g0[j]);
                }
            }
            assert forall|i: int, j: int| 0 <= i < j < g1.len() implies (#[trigger] g1[i]).key
                < (#[trigger] g1[j]).key by {
                assert(g.key == g0[p as int].key);
            }
            assert forall|u: Term|
                map_contains(*m, u) <==> (map_contains(m0, u) || u
                    == t) by {
                if map_contains(*m, u) {
                    let j = choose|j: int| 0 <= j < g1.len() && (#[trigger] g1[j]).terms@.contains(
                        u,
                    );
                    if j == p {
                        if !(u == t) {
                            assert(g0[p as int].terms@.contains(u));
                            assert(map_contains(m0, u));
                        }
                    } else {
                        assert(g0[j].terms@.contains(u));
                        assert(map_contains(m0, u));
                    }
                }
                if map_contains(m0, u) {
                    let j = choose|j: int| 0 <= j < g0.len() && (#[trigger] g0[j]).terms@.contains(
                        u,
                    );
                    if j == p {
                        assert(g.terms@.contains(u));
                        assert(g1[p as int].terms@.contains(u));
                    } else {
                        assert(g1[j].terms@.contains(u));
                    }
                    assert(map_contains(*m, u));
                }
                if u == t {
                    assert(g.terms@.contains(u));
                    assert(g1[p as int].terms@.contains(u));
                    assert(map_contains(*m, u));
                }
            }
        }
    } else {
        let mut terms: Vec<Term> = Vec::new();
        terms.push(t);
        let g = TermGroup { key: c, terms };
        m.groups.insert(p, g);
        proof {
            g0.insert_ensures(p as int, g);
            let g1 = m.groups@;
            assert(g1 == g0.insert(p as int, g));
            assert(g.terms@ == Seq::<Term>::empty().push(t));
            assert(g.terms@[0] == t);
            assert(group_wf(g));
            assert forall|j: int| 0 <= j < g1.len() implies group_wf(#[trigger] g1[j]) by {
                if j < p {
                    assert(g1[j] == g0[j]);
                } else if j > p {
                    assert(g1[j] == g0[j - 1]);
                }
            }
            assert forall|i: int, j: int| 0 <= i < j < g1.len() implies (#[trigger] g1[i]).key
                < (#[trigger] g1[j]).key by {
                if (p as int) < g0.len() {
                    assert(!(g0[p as int].key < c) && !(g0[p as int].key == c));
                }
                if i < p && j == p {
                    assert(g1[i] == g0[i] && g1[j] == g);
                } else if i == p && j > p {
                    assert(g1[i] == g && g1[j] == g0[j - 1]);
                    assert(j - 1 >= p);
                    if j - 1 > p {
                        assert(g0[p as int].key < g0[j - 1].key);
                    }
                } else if i < p && j > p {
                    assert(g1[i] == g0[i] && g1[j] == g0[j - 1]);
                    if i < j - 1 {
                    } else {
                        assert(i == j - 1 && i < p && j > p);
                        assert(false);
                    }
                } else if j < p {
                    assert(g1[i] == g0[i] && g1[j] == g0[j]);
                } else if i > p {
                    assert(g1[i] == g0[i - 1] && g1[j] == g0[j - 1]);
                }
            }
            assert forall|u: Term|
                map_contains(*m, u) <==> (map_contains(m0, u) || u
                    == t) by {
                if map_contains(*m, u) {
                    let j = choose|j: int| 0 <= j < g1.len() && (#[trigger] g1[j]).terms@.contains(
                        u,
                    );
                    if j == p {
                        assert(u == t);
                    } else if j < p {
                        assert(g0[j].terms@.contains(u));
                        assert(map_contains(m0, u));
                    } else {
                        assert(g0[j - 1].terms@.contains(u));
                        assert(map_contains(m0, u));
                    }
                }
                if map_contains(m0, u) {
                    let j = choose|j: int| 0 <= j < g0.len() && (#[trigger] g0[j]).terms@.contains(
                        u,
                    );
                    if j < p {
                        assert(g1[j].terms@.contains(u));
                    } else {
                        assert(g1[j + 1].terms@.contains(u));
                    }
                    assert(map_contains(*m, u));
                }
                if u == t {
                    assert(g1[p as int].terms@.contains(u));
                    assert(map_contains(*m, u));
                }
            }
        }
    }
}

impl TermMap {
    /// Build the index from the supplied terms. The index holds
    /// exactly the supplied terms, grouped by first character and
    /// ordered within each group by the content-based group order, so
    /// the result does not depend on the order of the input list.
    pub fn new(terms: Vec<Term>) -> (r: TermMap)
        requires
            forall|k: int| 0 <= k < terms@.len() ==> term_wf(#[trigger] terms@[k]),
        ensures
            map_wf(r),
            forall|u: Term| #[trigger] map_contains(r, u) <==> terms@.contains(u),
    {
        let mut rest = terms;
        let mut m = TermMap { groups: Vec::new() };
        proof {
            assert(m.groups@.len() == 0);
        }
        loop
            invariant
                rest@ == terms@.subrange(0, rest@.len() as int),
                rest@.len() <= terms@.len(),
                forall|k: int| 0 <= k < terms@.len() ==> term_wf(#[trigger] terms@[k]),
                map_wf(m),
                forall|u: Term| #[trigger] map_contains(m, u) <==> terms@.subrange(
                    rest@.len() as int,
                    terms@.len() as int,
                ).contains(u),
            decreases rest@.len(),
        {
            let ghost before = rest@;
            match rest.pop() {
                None => {
                    proof {
                        assert(terms@.subrange(0, terms@.len() as int) =~= terms@);
                        assert(forall|u: Term| #[trigger] map_contains(m, u) <==> terms@.contains(u));
                    }
                    return m;
                },
                Some(t) => {
                    proof {
                        assert(t == terms@[rest@.len() as int]);
                        assert(rest@ =~= terms@.subrange(0, rest@.len() as int));
                        assert(term_wf(t));
                    }
                    let ghost mold = m;
                    insert_term(&mut m, t);
                    proof {
                        let ln = rest@.len() as int;
                        let suffix_new = terms@.subrange(ln, terms@.len() as int);
                        let suffix_old = terms@.subrange(ln + 1, terms@.len() as int);
                        assert forall|u: Term| #[trigger] map_contains(m, u) <==> suffix_new.contains(
                            u,
                        ) by {
                            if map_contains(m, u) {
                                if u == t {
                                    assert(suffix_new[0] == t);
                                    assert(suffix_new.contains(u));
                                } else {
                                    assert(map_contains(mold, u));
                                    assert(suffix_old.contains(u));
                                    let k = choose|k: int|
                                        0 <= k < suffix_old.len() && suffix_old[k] == u;
                                    assert(suffix_new[k + 1] == u);
                                    assert(suffix_new.contains(u));
                                }
                            }
                            if suffix_new.contains(u) {
                                let k = choose|k: int|
                                    0 <= k < suffix_new.len() && suffix_new[k] == u;
                                if k == 0 {
                                    assert(u == t);
                                } else {
                                    assert(suffix_old[k - 1] == u);
                                    assert(suffix_old.contains(u));
                                    assert(map_contains(mold, u));
                                }
                                assert(map_contains(m, u));
                            }
                        }
                    }
                },
            }
        }
    }
}

impl TermMap {
    /// Greedy longest-match lookup at position `from` of `input`.
    ///
    /// Returns the end position of the matched body and the matched
    /// term's identifier. The matched term is a prefix of the input at
    /// `from`, and it comes first in group order among every contained
    /// term whose body is such a prefix — in particular its character
    /// count (variation selectors excluded) is the largest. Returns
    /// `None` exactly when no contained term matches there.
    pub fn lookup(&self, input: &Vec<char>, from: usize) -> (r: Option<(usize, Id)>)
        requires
            map_wf(*self),
            from < input@.len(),
        ensures
            match r {
                Some(hit) => {
                    &&& from < hit.0 <= input@.len()
                    &&& exists|t: Term|
                        {
                            &&& #[trigger] map_contains(*self, t)
                            &&& t.body@ == input@.subrange(from as int, hit.0 as int)
                            &&& t.id == hit.1
                            &&& forall|u: Term|
                                #[trigger] map_contains(*self, u) && prefix_at(
                                    u.body@,
                                    input@,
                                    from as int,
                                ) ==> term_precedes(t, u)
                        }
                },
                None => forall|u: Term|
                    #[trigger] map_contains(*self, u) ==> !prefix_at(
                        u.body@,
                        input@,
                        from as int,
                    ),
            },
    {
        let input_len = input.len();
        let c = input[from];
        proof {
            assert(input_len == input@.len());
        }
        let mut lo: usize = 0;
        let mut hi: usize = self.groups.len();
        while lo < hi
            invariant
                lo <= hi <= self.groups@.len(),
                map_wf(*self),
                from < input@.len(),
                input@.len() <= usize::MAX,
                c == input@[from as int],
                forall|j: int| 0 <= j < lo ==> (#[trigger] self.groups@[j]).key < c,
                forall|j: int|
                    hi <= j < self.groups@.len() ==> c < (#[trigger] self.groups@[j]).key,
            decreases hi - lo,
        {
            let mid = lo + (hi - lo) / 2;
            if self.groups[mid].key < c {
                proof {
                    assert forall|j: int| 0 <= j < mid + 1 implies (#[trigger] self.groups@[j]).key
                        < c by {
                        if j < mid {
                            assert(self.groups@[j].key < self.groups@[mid as int].key);
                        }
                    }
                }
                lo = mid + 1;
            } else if c < self.groups[mid].key {
                proof {
                    assert forall|j: int|
                        mid <= j < self.groups@.len() implies c < (
                    #[trigger] self.groups@[j]).key by {
                        if j > mid {
                            assert(self.groups@[mid as int].key < self.groups@[j].key);
                        }
                    }
                }
                hi = mid;
            } else {
                let g = &self.groups[mid];
                let mut k: usize = 0;
                while k < g.terms.len()
                    invariant
                        k <= g.terms@.len(),
                        map_wf(*self),
                        from < input@.len(),
                        input@.len() <= usize::MAX,
                        c == input@[from as int],
                        mid < self.groups@.len(),
                        *g == self.groups@[mid as int],
                        g.key == c,
                        forall|q: int|
                            0 <= q < k ==> !prefix_at(
                                (#[trigger] g.terms@[q]).body@,
                                input@,
                                from as int,
                            ),
                    decreases g.terms@.len() - k,
                {
                    if is_prefix_at(&g.terms[k].body, input, from) {
                        proof {
                            assert(group_wf(self.groups@[mid as int]));
                            assert(term_wf(g.terms@[k as int]));
                        }
                        let end = from + g.terms[k].body.len();
                        let id = g.terms[k].id.duplicate();
                        proof {
                            let t = g.terms@[k as int];
                            assert(g.terms@.contains(t));
                            assert(map_contains(*self, t));
                            assert(t.body@ == input@.subrange(from as int, end as int));
                            assert forall|u: Term|
                                #[trigger] map_contains(*self, u) && prefix_at(
                                    u.body@,
                                    input@,
                                    from as int,
                                ) implies term_precedes(t, u) by {
                                let j = choose|j: int|
                                    0 <= j < self.groups@.len() && (
                                    #[trigger] self.groups@[j]).terms@.contains(u);
                                assert(group_wf(self.groups@[j]));
                                let q = choose|q: int|
                                    0 <= q < self.groups@[j].terms@.len()
                                        && self.groups@[j].terms@[q] == u;
                                assert(term_wf(u) && u.body@[0] == self.groups@[j].key);
                                assert(u.body@[0] == input@.subrange(
                                    from as int,
                                    from + u.body@.len(),
                                )[0]);
                                assert(u.body@[0] == c);
                                if j != mid {
                                    if j < mid {
                                        assert(self.groups@[j].key < self.groups@[mid as int].key);
                                    } else {
                                        assert(self.groups@[mid as int].key < self.groups@[j].key);
                                    }
                                    assert(false);
                                }
                                assert(q >= k);
                                if q == k {
                                    lemma_term_precedes_refl(t);
                                } else {
                                    assert(term_precedes(
                                        self.groups@[mid as int].terms@[k as int],
                                        self.groups@[mid as int].terms@[q],
                                    ));
                                }
                            }
                        }
                        return Some((end, id));
                    }
                    k = k + 1;
                }
                proof {
                    assert forall|u: Term| #[trigger] map_contains(*self, u) implies !prefix_at(
                        u.body@,
                        input@,
                        from as int,
                    ) by {
                        if prefix_at(u.body@, input@, from as int) {
                            let j = choose|j: int|
                                0 <= j < self.groups@.len() && (
                                #[trigger] self.groups@[j]).terms@.contains(u);
                            assert(group_wf(self.groups@[j]));
                            let q = choose|q: int|
                                0 <= q < self.groups@[j].terms@.len() && self.groups@[j].terms@[q]
                                    == u;
                            assert(term_wf(u) && u.body@[0] == self.groups@[j].key);
                            assert(u.body@[0] == input@.subrange(
                                from as int,
                                from + u.body@.len(),
                            )[0]);
                            assert(u.body@[0] == c);
                            if j != mid {
                                if j < mid {
                                    assert(self.groups@[j].key < self.groups@[mid as int].key);
                                } else {
                                    assert(self.groups@[mid as int].key < self.groups@[j].key);
                                }
                                assert(false);
                            }
                            assert(!prefix_at(self.groups@[mid as int].terms@[q].body@, input@, from as int));
                            assert(false);
                        }
                    }
                }
                return None;
            }
        }
        proof {
            assert forall|u: Term| #[trigger] map_contains(*self, u) implies !prefix_at(
                u.body@,
                input@,
                from as int,
            ) by {
                if prefix_at(u.body@, input@, from as int) {
                    let j = choose|j: int|
                        0 <= j < self.groups@.len() && (
                        #[trigger] self.groups@[j]).terms@.contains(u);
                    assert(group_wf(self.groups@[j]));
                    let q = choose|q: int|
                        0 <= q < self.groups@[j].terms@.len() && self.groups@[j].terms@[q] == u;
                    assert(term_wf(u) && u.body@[0] == self.groups@[j].key);
                    assert(u.body@[0] == input@.subrange(from as int, from + u.body@.len())[0]);
                    assert(u.body@[0] == c);
                    if j < lo {
                        assert(self.groups@[j].key < c);
                    } else {
                        assert(c < self.groups@[j].key);
                    }
                    assert(false);
                }
            }
        }
        None
    }
}

} // verus!
