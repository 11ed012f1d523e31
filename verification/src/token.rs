//! The owned token model.
//!
//! Every token carries the span it consumed: the exact characters of
//! the source region it covers, together with the position (line and
//! byte offset) of that region's first character. The structured
//! variants additionally expose the parsed parts (ruby body and
//! reading, annotation body and description, emphasis content).
//!
//! Rendering a token tree back to text is canonical-equivalent: each
//! construct is printed with its canonical delimiters (`|`, `(`, `)`,
//! `$`, and the doubled angle brackets), so equivalent bracket styles
//! of the source are normalised while the content is kept verbatim.

use vstd::prelude::*;

use crate::text::string_from_chars;

verus! {

/// A source position: 1-based line number and the byte offset from
/// the start of the whole input.
#[derive(Debug, Clone, Copy, PartialEq, Eq)]
pub struct Position {
    pub line: usize,
    pub byte_offset: usize,
}

impl Position {
    pub fn new(line: usize, byte_offset: usize) -> (r: Position)
        ensures
            r.line == line && r.byte_offset == byte_offset,
    {
        Position { line, byte_offset }
    }
}

/// A contiguous piece of the source: its characters and the position
/// of its first character.
#[derive(Debug, Clone, PartialEq, Eq)]
pub struct Span {
    pub body: Vec<char>,
    pub position: Position,
}

impl Span {
    pub fn new(body: Vec<char>, position: Position) -> (r: Span)
        ensures
            r.body@ == body@ && r.position == position,
    {
        Span { body, position }
    }

    /// The span's characters, as an owned string.
    pub fn body_string(&self) -> (r: String)
        ensures
            r@ == self.body@,
    {
        string_from_chars(&self.body)
    }
}

/// An opaque identifier of a glossary term, supplied by the caller.
#[derive(Debug, Clone, PartialEq, Eq)]
pub struct Id {
    pub value: String,
}

impl Id {
    pub fn new(value: String) -> (r: Id)
        ensures
            r.value@ == value@,
    {
        Id { value }
    }

    /// A copy of this identifier, equal to the original.
    pub fn duplicate(&self) -> (r: Id)
        ensures
            r == *self,
    {
        Id { value: self.value.clone() }
    }
}

/// One token of the stream. `span` always holds exactly the source
/// region the token consumed.
#[derive(Debug, PartialEq)]
pub enum Token {
    /// A glossary term recognised by greedy longest match.
    Term { span: Span, term_id: Id },
    /// An explicit, directive-marked ruby: `|body(reading)`.
    Ruby { span: Span, body: Span, ruby: Span },
    /// An implicit ruby reading attached directly to a kanji run.
    KanjiRuby { span: Span, body: Span, ruby: Span },
    /// A marker text with a delimited description: `|body$description$`.
    Annotation { span: Span, body: Span, description: TokenText },
    /// Content wrapped in doubled emphasis markers.
    EmphasisMark { span: Span, body: Span },
    /// A run of whitespace characters.
    Space { span: Span },
    /// A directive marker consumed without producing markup.
    Ignore { span: Span },
    /// A run of plain text.
    Plaintext { span: Span },
    /// One logical newline.
    NewLine { span: Span },
}

/// An ordered sequence of tokens: the owned token tree.
#[derive(Debug, PartialEq)]
pub struct TokenText(pub Vec<Token>);

impl Token {
    /// The span this token consumed.
    pub open spec fn spec_span(&self) -> Span {
        match self {
            Token::Term { span, .. } => *span,
            Token::Ruby { span, .. } => *span,
            Token::KanjiRuby { span, .. } => *span,
            Token::Annotation { span, .. } => *span,
            Token::EmphasisMark { span, .. } => *span,
            Token::Space { span } => *span,
            Token::Ignore { span } => *span,
            Token::Plaintext { span } => *span,
            Token::NewLine { span } => *span,
        }
    }

    /// The span this token consumed.
    pub fn span(&self) -> (r: &Span)
        ensures
            *r == self.spec_span(),
    {
        match self {
            Token::Term { span, .. } => span,
            Token::Ruby { span, .. } => span,
            Token::KanjiRuby { span, .. } => span,
            Token::Annotation { span, .. } => span,
            Token::EmphasisMark { span, .. } => span,
            Token::Space { span } => span,
            Token::Ignore { span } => span,
            Token::Plaintext { span } => span,
            Token::NewLine { span } => span,
        }
    }
}

/// The characters a token consumed.
pub open spec fn token_chars(t: Token) -> Seq<char> {
    t.spec_span().body@
}

/// The characters a whole token sequence consumed, in stream order.
pub open spec fn tokens_chars(s: Seq<Token>) -> Seq<char>
    decreases s.len(),
{
    if s.len() == 0 {
        Seq::empty()
    } else {
        token_chars(s[0]) + tokens_chars(s.subrange(1, s.len() as int))
    }
}

/// No two consecutive tokens of the sequence are plain text.
pub open spec fn no_adjacent_plaintext(s: Seq<Token>) -> bool {
    forall|k: int|
        0 <= k && k + 1 < s.len() ==> !((#[trigger] s[k]) is Plaintext && s[k + 1] is Plaintext)
}

/// The positions of the tokens chain correctly from the starting line
/// and byte offset: each token starts where the previous one ended,
/// the byte offset advances by the consumed bytes, and the line number
/// advances exactly on newline tokens.
pub open spec fn positions_chain(s: Seq<Token>, line: int, byte_offset: int) -> bool
    decreases s.len(),
{
    s.len() == 0 || {
        &&& s[0].spec_span().position.line == line
        &&& s[0].spec_span().position.byte_offset == byte_offset
        &&& positions_chain(
            s.subrange(1, s.len() as int),
            line + if s[0] is NewLine {
                1int
            } else {
                0int
            },
            byte_offset + crate::text::text_bytes(token_chars(s[0])),
        )
    }
}

/// The canonical rendering of one token.
pub open spec fn render_token(t: Token) -> Seq<char>
    decreases t,
{
    match t {
        Token::Term { span, .. } => span.body@,
        Token::Ruby { body, ruby, .. } => seq!['|'] + body.body@ + seq!['('] + ruby.body@
            + seq![')'],
        Token::KanjiRuby { body, ruby, .. } => body.body@ + seq!['('] + ruby.body@ + seq![')'],
        Token::Annotation { body, description, .. } => seq!['|'] + body.body@ + seq!['$']
            + render_tokens(description.0@) + seq!['$'],
        Token::EmphasisMark { body, .. } => seq!['\u{300a}', '\u{300a}'] + body.body@
            + seq!['\u{300b}', '\u{300b}'],
        Token::Space { span } => span.body@,
        Token::Ignore { span } => span.body@,
        Token::Plaintext { span } => span.body@,
        Token::NewLine { span } => span.body@,
    }
}

/// The canonical rendering of a token sequence, in order.
pub open spec fn render_tokens(s: Seq<Token>) -> Seq<char>
    decreases s, 0int,
{
    if s.len() == 0 {
        Seq::empty()
    } else {
        render_token(s[0]) + render_tokens(s.subrange(1, s.len() as int))
    }
}

/// The canonical rendering of one token, as characters.
pub fn token_to_chars(t: &Token) -> (r: Vec<char>)
    ensures
        r@ == render_token(*t),
    decreases *t,
{
    match t {
        Token::Term { span, .. } => crate::text::copy_range(&span.body, 0, span.body.len()),
        Token::Ruby { body, ruby, .. } => {
            let mut r: Vec<char> = Vec::new();
            r.push('|');
            crate::text::push_chars(&mut r, &body.body);
            r.push('(');
            crate::text::push_chars(&mut r, &ruby.body);
            r.push(')');
            proof {
                assert(r@ =~= render_token(*t));
            }
            r
        },
        Token::KanjiRuby { body, ruby, .. } => {
            let mut r: Vec<char> = Vec::new();
            crate::text::push_chars(&mut r, &body.body);
            r.push('(');
            crate::text::push_chars(&mut r, &ruby.body);
            r.push(')');
            proof {
                assert(r@ =~= render_token(*t));
            }
            r
        },
        Token::Annotation { body, description, .. } => {
            let mut r: Vec<char> = Vec::new();
            r.push('|');
            crate::text::push_chars(&mut r, &body.body);
            r.push('$');
            let inner = text_to_chars(description);
            crate::text::push_chars(&mut r, &inner);
            r.push('$');
            proof {
                assert(r@ =~= render_token(*t));
            }
            r
        },
        Token::EmphasisMark { body, .. } => {
            let mut r: Vec<char> = Vec::new();
            r.push('\u{300a}');
            r.push('\u{300a}');
            crate::text::push_chars(&mut r, &body.body);
            r.push('\u{300b}');
            r.push('\u{300b}');
            proof {
                assert(r@ =~= render_token(*t));
            }
            r
        },
        Token::Space { span } => crate::text::copy_range(&span.body, 0, span.body.len()),
        Token::Ignore { span } => crate::text::copy_range(&span.body, 0, span.body.len()),
        Token::Plaintext { span } => crate::text::copy_range(&span.body, 0, span.body.len()),
        Token::NewLine { span } => crate::text::copy_range(&span.body, 0, span.body.len()),
    }
}

/// The canonical rendering of a token tree, as characters.
pub fn text_to_chars(tt: &TokenText) -> (r: Vec<char>)
    ensures
        r@ == render_tokens(tt.0@),
    decreases *tt,
{
    let mut r: Vec<char> = Vec::new();
    let mut k: usize = 0;
    while k < tt.0.len()
        invariant
            k <= tt.0@.len(),
            r@ == render_tokens(tt.0@.subrange(0, k as int)),
        decreases tt.0@.len() - k,
    {
        proof {
            assert(decreases_to!(*tt => tt.0@[k as int]));
        }
        let piece = token_to_chars(&tt.0[k]);
        crate::text::push_chars(&mut r, &piece);
        proof {
            lemma_render_tokens_take(tt.0@, k as int);
        }
        k = k + 1;
    }
    proof {
        assert(tt.0@.subrange(0, k as int) =~= tt.0@);
    }
    r
}

/// Splitting off the token at `k` splits the rendering there.
proof fn lemma_render_tokens_take(s: Seq<Token>, k: int)
    requires
        0 <= k < s.len(),
    ensures
        render_tokens(s.subrange(0, k + 1)) == render_tokens(s.subrange(0, k)) + render_token(
            s[k],
        ),
    decreases k,
{
    if k == 0 {
        assert(s.subrange(0, 1).subrange(1, 1) =~= Seq::<Token>::empty());
        assert(s.subrange(0, 0) =~= Seq::<Token>::empty());
        assert(render_tokens(Seq::<Token>::empty()) == Seq::<char>::empty());
        assert(s.subrange(0, 1)[0] == s[0]);
        assert(render_tokens(s.subrange(0, 1)) =~= render_token(s[0]));
        assert(render_tokens(s.subrange(0, 1)) == render_tokens(s.subrange(0, 0)) + render_token(
            s[0],
        ));
    } else {
        let tail = s.subrange(1, s.len() as int);
        lemma_render_tokens_take(tail, k - 1);
        assert(s.subrange(0, k + 1).subrange(1, k + 1) =~= tail.subrange(0, k));
        assert(s.subrange(0, k).subrange(1, k) =~= tail.subrange(0, k - 1));
        assert(render_tokens(s.subrange(0, k + 1)) == render_token(s[0]) + render_tokens(
            tail.subrange(0, k),
        ));
        assert(render_tokens(s.subrange(0, k)) == render_token(s[0]) + render_tokens(
            tail.subrange(0, k - 1),
        ));
        assert(tail[k - 1] == s[k]);
        assert(render_token(s[0]) + (render_tokens(tail.subrange(0, k - 1)) + render_token(s[k]))
            =~= (render_token(s[0]) + render_tokens(tail.subrange(0, k - 1))) + render_token(s[k]));
    }
}

impl TokenText {
    pub fn new(tokens: Vec<Token>) -> (r: TokenText)
        ensures
            r.0@ == tokens@,
    {
        TokenText(tokens)
    }

    /// Number of tokens in the tree.
    pub fn len(&self) -> (r: usize)
        ensures
            r == self.0@.len(),
    {
        self.0.len()
    }

    /// The token at `k`.
    pub fn get(&self, k: usize) -> (r: &Token)
        requires
            k < self.0@.len(),
        ensures
            *r == self.0@[k as int],
    {
        &self.0[k]
    }

    /// The canonical rendering of the tree, as an owned string.
    pub fn to_string(&self) -> (r: String)
        ensures
            r@ == render_tokens(self.0@),
    {
        let chars = text_to_chars(self);
        string_from_chars(&chars)
    }
}


/// Number of newline tokens in the sequence.
pub open spec fn newline_count(s: Seq<Token>) -> int
    decreases s.len(),
{
    if s.len() == 0 {
        0
    } else {
        (if s[0] is NewLine {
            1int
        } else {
            0int
        }) + newline_count(s.subrange(1, s.len() as int))
    }
}

/// Appending a token appends its characters to the stream's.
pub proof fn lemma_tokens_chars_push(s: Seq<Token>, t: Token)
    ensures
        tokens_chars(s.push(t)) == tokens_chars(s) + token_chars(t),
    decreases s.len(),
{
    if s.len() == 0 {
        assert(s.push(t).subrange(1, 1) =~= Seq::<Token>::empty());
        assert(tokens_chars(Seq::<Token>::empty()) == Seq::<char>::empty());
        assert(tokens_chars(s.push(t)) =~= tokens_chars(s) + token_chars(t));
    } else {
        let tail = s.subrange(1, s.len() as int);
        lemma_tokens_chars_push(tail, t);
        assert(s.push(t).subrange(1, s.len() as int + 1) =~= tail.push(t));
        assert(s.push(t)[0] == s[0]);
        assert(tokens_chars(s.push(t)) == token_chars(s[0]) + (tokens_chars(tail) + token_chars(
            t,
        )));
        assert(token_chars(s[0]) + (tokens_chars(tail) + token_chars(t)) =~= (token_chars(s[0])
            + tokens_chars(tail)) + token_chars(t));
    }
}

/// Appending a newline count over a push.
pub proof fn lemma_newline_count_push(s: Seq<Token>, t: Token)
    ensures
        newline_count(s.push(t)) == newline_count(s) + (if t is NewLine {
            1int
        } else {
            0int
        }),
    decreases s.len(),
{
    if s.len() == 0 {
        assert(s.push(t).subrange(1, 1) =~= Seq::<Token>::empty());
        assert(newline_count(Seq::<Token>::empty()) == 0);
        assert(s.push(t)[0] == t);
        assert(newline_count(s) == 0);
    } else {
        let tail = s.subrange(1, s.len() as int);
        lemma_newline_count_push(tail, t);
        assert(s.push(t).subrange(1, s.len() as int + 1) =~= tail.push(t));
        assert(s.push(t)[0] == s[0]);
        assert(newline_count(s.push(t)) == (if s[0] is NewLine {
            1int
        } else {
            0int
        }) + newline_count(tail.push(t)));
        assert(newline_count(s) == (if s[0] is NewLine {
            1int
        } else {
            0int
        }) + newline_count(tail));
    }
}

/// A token whose position continues the chain extends the chain.
pub proof fn lemma_chain_push(s: Seq<Token>, t: Token, line: int, byte_offset: int)
    requires
        positions_chain(s, line, byte_offset),
        t.spec_span().position.line == line + newline_count(s),
        t.spec_span().position.byte_offset == byte_offset + crate::text::text_bytes(
            tokens_chars(s),
        ),
    ensures
        positions_chain(s.push(t), line, byte_offset),
    decreases s.len(),
{
    if s.len() == 0 {
        assert(tokens_chars(s) == Seq::<char>::empty());
        assert(crate::text::text_bytes(Seq::<char>::empty()) == 0);
        assert(newline_count(s) == 0);
        assert(s.push(t)[0] == t);
        assert(s.push(t).subrange(1, 1) =~= Seq::<Token>::empty());
        assert(positions_chain(Seq::<Token>::empty(), line + if t is NewLine {
            1int
        } else {
            0int
        }, byte_offset + crate::text::text_bytes(token_chars(t))));
    } else {
        let tail = s.subrange(1, s.len() as int);
        let line1 = line + if s[0] is NewLine {
            1int
        } else {
            0int
        };
        let byte1 = byte_offset + crate::text::text_bytes(token_chars(s[0]));
        assert(positions_chain(tail, line1, byte1));
        crate::text::lemma_text_bytes_concat(token_chars(s[0]), tokens_chars(tail));
        assert(token_chars(s[0]) + tokens_chars(tail) == tokens_chars(s));
        assert(newline_count(s) == (if s[0] is NewLine {
            1int
        } else {
            0int
        }) + newline_count(tail));
        lemma_chain_push(tail, t, line1, byte1);
        assert(s.push(t).subrange(1, s.len() as int + 1) =~= tail.push(t));
        assert(s.push(t)[0] == s[0]);
        assert(positions_chain(tail.push(t), line1, byte1));
    }
}

/// Inversion of `lemma_chain_push`: if a chained sequence ends in a
/// token, the prefix chains and the token sits at the prefix's end.
pub proof fn lemma_chain_unpush(s: Seq<Token>, t: Token, line: int, byte_offset: int)
    requires
        positions_chain(s.push(t), line, byte_offset),
    ensures
        positions_chain(s, line, byte_offset),
        t.spec_span().position.line == line + newline_count(s),
        t.spec_span().position.byte_offset == byte_offset + crate::text::text_bytes(
            tokens_chars(s),
        ),
    decreases s.len(),
{
    if s.len() == 0 {
        assert(s.push(t)[0] == t);
        assert(tokens_chars(s) == Seq::<char>::empty());
        assert(crate::text::text_bytes(Seq::<char>::empty()) == 0);
    } else {
        let tail = s.subrange(1, s.len() as int);
        assert(s.push(t).subrange(1, s.len() as int + 1) =~= tail.push(t));
        assert(s.push(t)[0] == s[0]);
        let line1 = line + if s[0] is NewLine {
            1int
        } else {
            0int
        };
        let byte1 = byte_offset + crate::text::text_bytes(token_chars(s[0]));
        lemma_chain_unpush(tail, t, line1, byte1);
        crate::text::lemma_text_bytes_concat(token_chars(s[0]), tokens_chars(tail));
        assert(token_chars(s[0]) + tokens_chars(tail) == tokens_chars(s));
    }
}


/// Round trip: a token stream in which every token renders to
/// exactly the characters it consumed — true of every token kind
/// whose source used the canonical delimiters, and of plain text,
/// whitespace, newline, ignore and term tokens always — renders to
/// exactly the characters the whole stream consumed. Together with
/// the tokenizer's coverage guarantee, rendering such a stream
/// reproduces the input.
pub proof fn lemma_round_trip(s: Seq<Token>)
    requires
        forall|k: int| 0 <= k < s.len() ==> render_token(#[trigger] s[k]) == token_chars(s[k]),
    ensures
        render_tokens(s) == tokens_chars(s),
    decreases s.len(),
{
    if s.len() > 0 {
        let tail = s.subrange(1, s.len() as int);
        assert forall|k: int| 0 <= k < tail.len() implies render_token(#[trigger] tail[k])
            == token_chars(tail[k]) by {
            assert(tail[k] == s[k + 1]);
        }
        lemma_round_trip(tail);
    }
}

} // verus!
