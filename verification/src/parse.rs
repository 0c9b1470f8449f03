//! A single-pass tokenizer for markup text.
//!
//! The document is scanned once for `<` and `>` characters (the symbols);
//! every adjacent pair of symbols is then classified into at most one token:
//! an opening tag, a closing tag, a comment, or a run of text. Classification
//! looks only at the pair's bracket kinds and the characters they bound; it
//! never tracks nesting, tag names, or balance. Malformed input never makes
//! the tokenizer fail: a pair that fits no rule simply yields no token.
use vstd::prelude::*;

verus! {

/// One bracket character found in the document: `Open(p)` records a `<` at
/// character position `p`, `Close(p)` a `>` at `p`.
#[derive(Clone, Copy, Debug, PartialEq)]
pub enum Symbol {
    Open(usize),
    Close(usize),
}

/// The character position a symbol records.
pub open spec fn sym_pos(sym: Symbol) -> int {
    match sym {
        Symbol::Open(p) => p as int,
        Symbol::Close(p) => p as int,
    }
}

/// The symbols of `s`, in strictly increasing position order: one `Open` per
/// `<` and one `Close` per `>`, and nothing else.
pub open spec fn spec_symbols(s: Seq<char>) -> Seq<Symbol>
    decreases s.len(),
{
    if s.len() == 0 {
        Seq::empty()
    } else {
        let rest = spec_symbols(s.drop_last());
        let p = (s.len() - 1) as usize;
        if s.last() == '<' {
            rest.push(Symbol::Open(p))
        } else if s.last() == '>' {
            rest.push(Symbol::Close(p))
        } else {
            rest
        }
    }
}

/// An inclusive range of character positions in the document.
pub ghost struct Span {
    pub start: int,
    pub end: int,
}

/// The classification of one token, reduced to its kind and its span.
pub ghost enum TokenShape {
    Opening(Span),
    Closing(Span),
    TextRun(Span),
    CommentRun(Span),
}

/// The span of a token shape, whatever its kind.
pub open spec fn shape_span(t: TokenShape) -> Span {
    match t {
        TokenShape::Opening(sp) => sp,
        TokenShape::Closing(sp) => sp,
        TokenShape::TextRun(sp) => sp,
        TokenShape::CommentRun(sp) => sp,
    }
}

/// The span `[start, end]` of `s` is delimited like a comment: long enough,
/// its first four characters are `<!--`, and its last three are `-->`.
pub open spec fn comment_delimited(s: Seq<char>, start: int, end: int) -> bool {
    &&& end - start >= 3
    &&& s[start] == '<'
    &&& s[start + 1] == '!'
    &&& s[start + 2] == '-'
    &&& s[start + 3] == '-'
    &&& s[end - 2] == '-'
    &&& s[end - 1] == '-'
    &&& s[end] == '>'
}

/// The token, if any, that the adjacent symbol pair `(a, b)` yields.
///
/// `Open` then `Close` bounds a tag-like span: a `/` right after the `<`
/// makes it a closing tag, a `!` makes it a comment candidate (kept only when
/// the comment delimiters are exactly in place; a span too short to hold them
/// is not a comment), anything else an opening tag. `Close` then `Open` with
/// at least one character strictly between yields that run as text. Any other
/// pair yields nothing.
pub open spec fn classify_pair(s: Seq<char>, a: Symbol, b: Symbol) -> Option<TokenShape> {
    match (a, b) {
        (Symbol::Open(sp), Symbol::Close(ep)) => {
            let start = sp as int;
            let end = ep as int;
            if s[start + 1] == '/' {
                Some(TokenShape::Closing(Span { start, end }))
            } else if s[start + 1] == '!' {
                if comment_delimited(s, start, end) {
                    Some(TokenShape::CommentRun(Span { start, end }))
                } else {
                    None
                }
            } else {
                Some(TokenShape::Opening(Span { start, end }))
            }
        },
        (Symbol::Close(sp), Symbol::Open(ep)) => {
            if sp + 1 != ep {
                Some(TokenShape::TextRun(Span { start: sp as int + 1, end: ep as int - 1 }))
            } else {
                None
            }
        },
        _ => None,
    }
}

/// A classification result as a sequence of zero or one shapes.
pub open spec fn opt_to_seq(t: Option<TokenShape>) -> Seq<TokenShape> {
    match t {
        Some(x) => seq![x],
        None => Seq::empty(),
    }
}

/// The shapes yielded by the first `k` adjacent pairs of `syms`: pair `i`
/// is `(syms[i], syms[i + 1])`, taken in order for `i` in `0 .. k`.
pub open spec fn spans_of_pairs(s: Seq<char>, syms: Seq<Symbol>, k: int) -> Seq<TokenShape>
    decreases k,
{
    if k <= 0 {
        Seq::empty()
    } else {
        spans_of_pairs(s, syms, k - 1) + opt_to_seq(classify_pair(s, syms[k - 1], syms[k]))
    }
}

/// Every token shape of the document `s`, in document order: the shapes
/// yielded by all adjacent pairs of its symbol sequence.
pub open spec fn spec_token_shapes(s: Seq<char>) -> Seq<TokenShape> {
    spans_of_pairs(s, spec_symbols(s), spec_symbols(s).len() - 1)
}

/// Extending the scanned prefix by one character extends the symbol
/// sequence by the symbol of that character, if it is a bracket.
proof fn lemma_spec_symbols_step(s: Seq<char>, i: int)
    requires
        0 <= i < s.len(),
        s.len() <= usize::MAX,
    ensures
        spec_symbols(s.take(i + 1)) == (if s[i] == '<' {
            spec_symbols(s.take(i)).push(Symbol::Open(i as usize))
        } else if s[i] == '>' {
            spec_symbols(s.take(i)).push(Symbol::Close(i as usize))
        } else {
            spec_symbols(s.take(i))
        }),
{
    let t = s.take(i + 1);
    assert(t.drop_last() =~= s.take(i));
    assert(t.last() == s[i]);
    assert(t.len() == i + 1);
}

/// Every symbol of `s` records a position inside `s` holding its bracket
/// character, and the positions are strictly increasing in symbol order.
proof fn lemma_symbols_facts(s: Seq<char>)
    requires
        s.len() <= usize::MAX,
    ensures
        forall|k: int|
            0 <= k < spec_symbols(s).len() ==> {
                let p = sym_pos(#[trigger] spec_symbols(s)[k]);
                &&& 0 <= p < s.len()
                &&& (spec_symbols(s)[k] is Open ==> s[p] == '<')
                &&& (spec_symbols(s)[k] is Close ==> s[p] == '>')
                &&& p >= k
            },
        forall|k: int, l: int|
            0 <= k < l < spec_symbols(s).len() ==> sym_pos(spec_symbols(s)[k]) < sym_pos(
                spec_symbols(s)[l],
            ),
    decreases s.len(),
{
    if s.len() == 0 {
    } else {
        let prefix = s.drop_last();
        lemma_symbols_facts(prefix);
        let syms = spec_symbols(s);
        let prev = spec_symbols(prefix);
        if prev.len() > 0 {
            assert(sym_pos(prev[prev.len() - 1]) >= prev.len() - 1);
            assert(sym_pos(prev[prev.len() - 1]) < prefix.len());
        }
        assert(prev.len() <= prefix.len());
        assert forall|k: int| 0 <= k < syms.len() implies {
            let p = sym_pos(#[trigger] syms[k]);
            &&& 0 <= p < s.len()
            &&& (syms[k] is Open ==> s[p] == '<')
            &&& (syms[k] is Close ==> s[p] == '>')
            &&& p >= k
        } by {
            if k < prev.len() {
                assert(syms[k] == prev[k]);
                let p = sym_pos(prev[k]);
                assert(0 <= p < prefix.len());
                assert(prefix[p] == s[p]);
            } else {
                assert(k == prev.len());
                assert(sym_pos(syms[k]) == s.len() - 1);
            }
        }
        assert forall|k: int, l: int|
            0 <= k < l < syms.len() implies sym_pos(syms[k]) < sym_pos(syms[l]) by {
            assert(syms[k] == prev[k]);
            if l < prev.len() {
                assert(syms[l] == prev[l]);
            } else {
                assert(sym_pos(prev[k]) < prefix.len());
                assert(sym_pos(syms[l]) == s.len() - 1);
            }
        }
    }
}

/// The earliest position a token yielded by a pair beginning at `sym` can
/// start at: at the bracket itself for an `Open`, just after it for a
/// `Close` (text excludes its bounding brackets).
spec fn eff_start(sym: Symbol) -> int {
    match sym {
        Symbol::Open(p) => p as int,
        Symbol::Close(p) => p as int + 1,
    }
}

/// The latest position a token yielded by a pair ending at `sym` can end
/// at: at the bracket itself for a `Close`, just before it for an `Open`.
spec fn eff_end(sym: Symbol) -> int {
    match sym {
        Symbol::Open(p) => p as int - 1,
        Symbol::Close(p) => p as int,
    }
}

/// The characters of `s` that a shape's classification rule looked at.
pub open spec fn shape_chars_ok(s: Seq<char>, t: TokenShape) -> bool {
    match t {
        TokenShape::Opening(sp) => s[sp.start] == '<' && s[sp.end] == '>',
        TokenShape::Closing(sp) => s[sp.start] == '<' && s[sp.start + 1] == '/' && s[sp.end]
            == '>',
        TokenShape::TextRun(sp) => true,
        TokenShape::CommentRun(sp) => comment_delimited(s, sp.start, sp.end),
    }
}

/// The shapes yielded by the first `k` pairs have spans inside `s`, in
/// strictly increasing, non-overlapping order, each satisfying its
/// classification rule's character conditions, and none reaching past the
/// last symbol of the `k`th pair.
proof fn lemma_spans_of_pairs_facts(s: Seq<char>, syms: Seq<Symbol>, k: int)
    requires
        syms == spec_symbols(s),
        s.len() <= usize::MAX,
        k < syms.len(),
    ensures
        forall|i: int|
            0 <= i < spans_of_pairs(s, syms, k).len() ==> {
                let sp = shape_span(#[trigger] spans_of_pairs(s, syms, k)[i]);
                &&& 0 <= sp.start <= sp.end < s.len()
                &&& shape_chars_ok(s, spans_of_pairs(s, syms, k)[i])
            },
        forall|i: int, j: int|
            0 <= i < j < spans_of_pairs(s, syms, k).len() ==> shape_span(
                spans_of_pairs(s, syms, k)[i],
            ).end < shape_span(spans_of_pairs(s, syms, k)[j]).start,
        k >= 1 ==> forall|i: int|
            0 <= i < spans_of_pairs(s, syms, k).len() ==> shape_span(
                #[trigger] spans_of_pairs(s, syms, k)[i],
            ).end <= eff_end(syms[k]),
    decreases k,
{
    lemma_symbols_facts(s);
    if k <= 0 {
    } else {
        lemma_spans_of_pairs_facts(s, syms, k - 1);
        let prev = spans_of_pairs(s, syms, k - 1);
        let cur = spans_of_pairs(s, syms, k);
        let a = syms[k - 1];
        let b = syms[k];
        assert(sym_pos(a) < sym_pos(b));
        assert(eff_end(a) < eff_start(a));
        assert(eff_end(a) <= sym_pos(a));
        assert(sym_pos(a) <= sym_pos(b) - 1 <= eff_end(b));
        match classify_pair(s, a, b) {
            Some(t) => {
                assert(cur =~= prev.push(t));
                let sp = shape_span(t);
                assert({
                    &&& eff_start(a) <= sp.start <= sp.end <= eff_end(b)
                    &&& 0 <= sp.start
                    &&& sp.end < s.len()
                    &&& shape_chars_ok(s, t)
                });
                assert forall|i: int, j: int|
                    0 <= i < j < cur.len() implies shape_span(cur[i]).end < shape_span(
                    cur[j],
                ).start by {
                    if j < prev.len() {
                    } else {
                        assert(cur[j] == t);
                        if k - 1 >= 1 {
                            assert(shape_span(cur[i]).end <= eff_end(syms[k - 1]));
                        }
                    }
                }
            },
            None => {
                assert(cur =~= prev);
            },
        }
    }
}

/// A tag-like token: the raw text between and including a `<` and the next
/// `>`, with the inclusive character positions of its two brackets.
#[derive(Debug, PartialEq)]
pub struct Tag<'a> {
    pub _raw: &'a str,
    pub start_pos: usize,
    pub end_pos: usize,
}

/// A run of document text strictly between a `>` and the next `<`, with its
/// inclusive character positions.
#[derive(Debug, PartialEq)]
pub struct Text<'a> {
    pub _raw: &'a str,
    pub start_pos: usize,
    pub end_pos: usize,
}

/// A comment: the raw text from a `<!--` through its `-->`, brackets
/// included, with its inclusive character positions.
#[derive(Debug, PartialEq)]
pub struct Comment<'a> {
    pub _raw: &'a str,
    pub start_pos: usize,
    pub end_pos: usize,
}

/// One classified span of the document. Tokens borrow the document: they
/// carry a slice of it and the positions that bound the slice, never a copy
/// with structure parsed out of it.
#[derive(Debug, PartialEq)]
pub enum Token<'a> {
    OpeningTag(Tag<'a>),
    ClosingTag(Tag<'a>),
    Text(Text<'a>),
    Comment(Comment<'a>),
}

/// The kind and span of a token, forgetting the borrowed text.
pub open spec fn token_shape<'a>(t: Token<'a>) -> TokenShape {
    match t {
        Token::OpeningTag(tag) => TokenShape::Opening(
            Span { start: tag.start_pos as int, end: tag.end_pos as int },
        ),
        Token::ClosingTag(tag) => TokenShape::Closing(
            Span { start: tag.start_pos as int, end: tag.end_pos as int },
        ),
        Token::Text(tx) => TokenShape::TextRun(
            Span { start: tx.start_pos as int, end: tx.end_pos as int },
        ),
        Token::Comment(c) => TokenShape::CommentRun(
            Span { start: c.start_pos as int, end: c.end_pos as int },
        ),
    }
}

/// The characters of the raw text a token carries.
pub open spec fn token_raw<'a>(t: Token<'a>) -> Seq<char> {
    match t {
        Token::OpeningTag(tag) => tag._raw@,
        Token::ClosingTag(tag) => tag._raw@,
        Token::Text(tx) => tx._raw@,
        Token::Comment(c) => c._raw@,
    }
}

/// The tokens of a document, in document order, together with the document
/// they borrow from. Built once by [`tokenize`] and never reordered.
#[derive(Debug, PartialEq)]
pub struct DocumentTokens<'a> {
    pub source: &'a str,
    pub tokens: Vec<Token<'a>>,
}

impl<'a> DocumentTokens<'a> {
    /// Every token's span lies inside the source, and the raw text each
    /// token carries is exactly the source text its span bounds.
    pub open spec fn wf(&self) -> bool {
        forall|i: int|
            0 <= i < self.tokens@.len() ==> {
                let sp = shape_span(token_shape(#[trigger] self.tokens@[i]));
                &&& 0 <= sp.start <= sp.end < self.source@.len()
                &&& token_raw(self.tokens@[i]) == self.source@.subrange(sp.start, sp.end + 1)
            }
    }

    /// The tokens are exactly the classified shapes of the source.
    pub open spec fn well_classified(&self) -> bool {
        &&& self.tokens@.len() == spec_token_shapes(self.source@).len()
        &&& forall|i: int|
            0 <= i < self.tokens@.len() ==> token_shape(#[trigger] self.tokens@[i])
                == spec_token_shapes(self.source@)[i]
    }
}

/// Tokenizes a document in a single pass: scans it for bracket symbols,
/// classifies each adjacent symbol pair, and returns the classified spans
/// in document order, borrowing the document.
///
/// Accepts any input, including empty or malformed text, and never fails:
/// a pair of symbols that fits no classification rule yields no token.
pub fn tokenize<'a>(input: &'a str) -> (result: DocumentTokens<'a>)
    ensures
        result.source@ == input@,
        result.well_classified(),
        result.wf(),
        input@.len() <= usize::MAX,
{
    let n = input.unicode_len();
    let mut symbols: Vec<Symbol> = Vec::new();
    let mut i: usize = 0;
    while i < n
        invariant
            n == input@.len(),
            i <= n,
            symbols@ == spec_symbols(input@.take(i as int)),
        decreases n - i,
    {
        let c = input.get_char(i);
        proof {
            lemma_spec_symbols_step(input@, i as int);
            assert(input@.take(i as int + 1).take(i as int) =~= input@.take(i as int));
        }
        if c == '<' {
            symbols.push(Symbol::Open(i));
        } else if c == '>' {
            symbols.push(Symbol::Close(i));
        }
        i += 1;
    }
    proof {
        assert(input@.take(n as int) =~= input@);
    }
    let mut tokens: Vec<Token<'a>> = Vec::new();
    let m = symbols.len();
    if m >= 1 {
        let mut j: usize = 0;
        while j < m - 1
            invariant
                n == input@.len(),
                m == symbols@.len(),
                1 <= m,
                j <= m - 1,
                symbols@ == spec_symbols(input@),
                tokens@.len() == spans_of_pairs(input@, symbols@, j as int).len(),
                forall|t: int|
                    0 <= t < tokens@.len() ==> token_shape(#[trigger] tokens@[t])
                        == spans_of_pairs(input@, symbols@, j as int)[t],
                forall|t: int|
                    0 <= t < tokens@.len() ==> {
                        let sp = shape_span(token_shape(#[trigger] tokens@[t]));
                        token_raw(tokens@[t]) == input@.subrange(sp.start, sp.end + 1)
                    },
            decreases m - 1 - j,
        {
            proof {
                lemma_symbols_facts(input@);
                assert(sym_pos(symbols@[j as int]) < sym_pos(symbols@[j as int + 1]));
                assert(spans_of_pairs(input@, symbols@, j as int + 1) =~= spans_of_pairs(
                    input@,
                    symbols@,
                    j as int,
                ) + opt_to_seq(
                    classify_pair(input@, symbols@[j as int], symbols@[j as int + 1]),
                ));
            }
            let a = symbols[j];
            let b = symbols[j + 1];
            match (a, b) {
                (Symbol::Open(sp), Symbol::Close(ep)) => {
                    let c1 = input.get_char(sp + 1);
                    if c1 == '/' {
                        let raw = input.substring_char(sp, ep + 1);
                        tokens.push(
                            Token::ClosingTag(Tag { _raw: raw, start_pos: sp, end_pos: ep }),
                        );
                    } else if c1 == '!' {
                        if ep - sp >= 3 && input.get_char(sp + 2) == '-' && input.get_char(sp + 3)
                            == '-' && input.get_char(ep - 2) == '-' && input.get_char(ep - 1)
                            == '-' {
                            let raw = input.substring_char(sp, ep + 1);
                            tokens.push(
                                Token::Comment(Comment { _raw: raw, start_pos: sp, end_pos: ep }),
                            );
                        }
                    } else {
                        let raw = input.substring_char(sp, ep + 1);
                        tokens.push(
                            Token::OpeningTag(Tag { _raw: raw, start_pos: sp, end_pos: ep }),
                        );
                    }
                },
                (Symbol::Close(sp), Symbol::Open(ep)) => {
                    if sp + 1 != ep {
                        let raw = input.substring_char(sp + 1, ep);
                        tokens.push(
                            Token::Text(Text { _raw: raw, start_pos: sp + 1, end_pos: ep - 1 }),
                        );
                    }
                },
                _ => {},
            }
            j += 1;
        }
    }
    proof {
        lemma_spans_of_pairs_facts(input@, symbols@, symbols@.len() - 1);
        assert forall|t: int| 0 <= t < tokens@.len() implies {
            let sp = shape_span(token_shape(#[trigger] tokens@[t]));
            &&& 0 <= sp.start <= sp.end < input@.len()
            &&& token_raw(tokens@[t]) == input@.subrange(sp.start, sp.end + 1)
        } by {
            assert(token_shape(tokens@[t]) == spec_token_shapes(input@)[t]);
        }
    }
    DocumentTokens { source: input, tokens }
}

/// Law: tokens come in document order with non-overlapping spans. Of any
/// two tokens, the earlier one's span ends strictly before the later one's
/// span starts, so no two tokens claim a common position and start
/// positions are strictly increasing.
pub proof fn lemma_tokens_ordered(dt: &DocumentTokens<'_>, i: int, j: int)
    requires
        dt.wf(),
        dt.well_classified(),
        dt.source@.len() <= usize::MAX,
        0 <= i < j < dt.tokens@.len(),
    ensures
        shape_span(token_shape(dt.tokens@[i])).end < shape_span(token_shape(dt.tokens@[j])).start,
{
    let s = dt.source@;
    lemma_spans_of_pairs_facts(s, spec_symbols(s), spec_symbols(s).len() - 1);
    assert(token_shape(dt.tokens@[i]) == spec_token_shapes(s)[i]);
    assert(token_shape(dt.tokens@[j]) == spec_token_shapes(s)[j]);
}

/// Law: a comment token's raw text is delimited exactly. It is at least
/// four characters long, its first four characters are `<!--`, and its last
/// three are `-->`; no comment token is ever produced otherwise.
pub proof fn lemma_comment_raw_delimiters(dt: &DocumentTokens<'_>, i: int)
    requires
        dt.wf(),
        dt.well_classified(),
        dt.source@.len() <= usize::MAX,
        0 <= i < dt.tokens@.len(),
        dt.tokens@[i] is Comment,
    ensures
        token_raw(dt.tokens@[i]).len() >= 4,
        token_raw(dt.tokens@[i]).subrange(0, 4) == seq!['<', '!', '-', '-'],
        token_raw(dt.tokens@[i]).subrange(
            token_raw(dt.tokens@[i]).len() - 3,
            token_raw(dt.tokens@[i]).len() as int,
        ) == seq!['-', '-', '>'],
{
    let s = dt.source@;
    lemma_spans_of_pairs_facts(s, spec_symbols(s), spec_symbols(s).len() - 1);
    let shape = token_shape(dt.tokens@[i]);
    assert(shape == spec_token_shapes(s)[i]);
    assert(shape_chars_ok(s, shape));
    let sp = shape_span(shape);
    let raw = token_raw(dt.tokens@[i]);
    assert(raw == s.subrange(sp.start, sp.end + 1));
    assert(raw.subrange(0, 4) =~= seq!['<', '!', '-', '-']);
    assert(raw.subrange(raw.len() - 3, raw.len() as int) =~= seq!['-', '-', '>']);
}

/// Law: a closing-tag token's raw text has `/` as its second character (and
/// so is at least two characters long).
pub proof fn lemma_closing_tag_slash(dt: &DocumentTokens<'_>, i: int)
    requires
        dt.wf(),
        dt.well_classified(),
        dt.source@.len() <= usize::MAX,
        0 <= i < dt.tokens@.len(),
        dt.tokens@[i] is ClosingTag,
    ensures
        token_raw(dt.tokens@[i]).len() >= 2,
        token_raw(dt.tokens@[i])[1] == '/',
{
    let s = dt.source@;
    lemma_spans_of_pairs_facts(s, spec_symbols(s), spec_symbols(s).len() - 1);
    let shape = token_shape(dt.tokens@[i]);
    assert(shape == spec_token_shapes(s)[i]);
    assert(shape_chars_ok(s, shape));
    let sp = shape_span(shape);
    assert(s[sp.start] == '<' && s[sp.end] == '>');
    assert(sp.start != sp.end);
    let raw = token_raw(dt.tokens@[i]);
    assert(raw == s.subrange(sp.start, sp.end + 1));
    assert(raw[1] == s[sp.start + 1]);
}

} // verus!

