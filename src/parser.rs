use crate::span::Span;
use crate::token::{Kind, Token};
use vstd::prelude::*;

verus! {

/// What a grammar rule expected where it failed.
#[derive(Debug, Clone, Copy, PartialEq, Eq, Structural)]
pub enum Expected {
    /// A token of the given kind.
    Token(Kind),
    /// A module body: an opening brace or a terminating semicolon.
    ModBody,
}

/// A recoverable parse failure: where it happened and what was expected.
#[derive(Debug, Clone, Copy, PartialEq, Eq, Structural)]
pub struct ParseError {
    pub span: Span,
    pub expected: Expected,
}

/// The kind of the token at position `i`; past the end, the end of input.
pub open spec fn kind_at(toks: Seq<Token>, i: int) -> Kind {
    if 0 <= i < toks.len() {
        toks[i].kind
    } else {
        Kind::Eof
    }
}

/// The span of the token at position `i`; where input has ended, a
/// zero-width span at the end of the last token, or at 0 in an empty stream.
pub open spec fn span_at(toks: Seq<Token>, i: int) -> Span {
    if 0 <= i < toks.len() {
        toks[i].span
    } else if toks.len() > 0 {
        Span { start: toks.last().span.end, end: toks.last().span.end }
    } else {
        Span { start: 0, end: 0 }
    }
}

/// `s` stands in `toks` from position `c` on.
pub open spec fn occurs_at(toks: Seq<Token>, c: int, s: Seq<Token>) -> bool {
    &&& 0 <= c
    &&& c + s.len() <= toks.len()
    &&& toks.subrange(c, c + s.len()) == s
}

/// Each token of `s` stands at its place.
pub proof fn lemma_occurs_index(toks: Seq<Token>, c: int, s: Seq<Token>, i: int)
    requires
        occurs_at(toks, c, s),
        0 <= i < s.len(),
    ensures
        toks[c + i] == s[i],
        kind_at(toks, c + i) == s[i].kind,
{
    assert(toks.subrange(c, c + s.len())[i] == s[i]);
}

/// Where a concatenation stands, each of its parts stands.
pub proof fn lemma_occurs_concat(toks: Seq<Token>, c: int, s1: Seq<Token>, s2: Seq<Token>)
    requires
        occurs_at(toks, c, s1 + s2),
    ensures
        occurs_at(toks, c, s1),
        occurs_at(toks, c + s1.len(), s2),
{
    let w = toks.subrange(c, c + s1.len() + s2.len());
    assert forall|i: int| 0 <= i < s1.len() implies toks[c + i] == s1[i] by {
        assert(w[i] == (s1 + s2)[i]);
    }
    assert forall|i: int| 0 <= i < s2.len() implies toks[c + s1.len() + i] == s2[i] by {
        assert(w[s1.len() + i] == (s1 + s2)[s1.len() + i]);
    }
    assert(toks.subrange(c, c + s1.len()) =~= s1);
    assert(toks.subrange(c + s1.len(), c + s1.len() + s2.len()) =~= s2);
}

/// A token stream with a cursor that only moves forward.
pub struct Parser {
    pub tokens: Vec<Token>,
    pub cursor: usize,
}

impl Parser {
    /// The cursor lies within the stream.
    pub open spec fn wf(&self) -> bool {
        self.cursor <= self.tokens@.len()
    }

    /// The kind of the token `k` places ahead of the cursor; the end of input
    /// is a kind of its own.
    pub open spec fn spec_nth(&self, k: int) -> Kind {
        if self.cursor + k < self.tokens@.len() {
            self.tokens@[self.cursor + k].kind
        } else {
            Kind::Eof
        }
    }


    /// The tokens consumed between the cursors of `self` and a later state.
    pub open spec fn consumed(&self, later: &Parser) -> Seq<Token> {
        self.tokens@.subrange(self.cursor as int, later.cursor as int)
    }

    /// `later` is `self` after moving forward over the same stream.
    pub open spec fn advanced_to(&self, later: &Parser) -> bool {
        &&& later.tokens@ == self.tokens@
        &&& self.cursor <= later.cursor <= later.tokens@.len()
    }

    pub fn new(tokens: Vec<Token>) -> (r: Parser)
        ensures
            r.tokens@ == tokens@,
            r.cursor == 0,
            r.wf(),
    {
        Parser { tokens, cursor: 0 }
    }

    /// Looks `k` tokens ahead without consuming anything.
    pub fn nth(&self, k: usize) -> (r: Kind)
        requires
            self.wf(),
        ensures
            r == self.spec_nth(k as int),
    {
        if k < self.tokens.len() - self.cursor {
            self.tokens[self.cursor + k].kind
        } else {
            Kind::Eof
        }
    }

    /// Whether every token has been consumed.
    pub fn is_eof(&self) -> (r: bool)
        requires
            self.wf(),
        ensures
            r == (self.cursor == self.tokens@.len()),
    {
        self.cursor == self.tokens.len()
    }

    /// The span of the token at the cursor.
    pub open spec fn spec_next_span(&self) -> Span {
        span_at(self.tokens@, self.cursor as int)
    }

    /// The span of the next token, or a zero-width span where input ends.
    pub fn next_span(&self) -> (r: Span)
        requires
            self.wf(),
        ensures
            r == self.spec_next_span(),
    {
        if self.cursor < self.tokens.len() {
            self.tokens[self.cursor].span
        } else if self.cursor > 0 {
            Span::point(self.tokens[self.cursor - 1].span.end)
        } else {
            Span::point(0)
        }
    }

    /// Consumes the next token.
    pub fn bump(&mut self) -> (r: Token)
        requires
            old(self).cursor < old(self).tokens@.len(),
        ensures
            final(self).tokens@ == old(self).tokens@,
            final(self).cursor == old(self).cursor + 1,
            r == old(self).tokens@[old(self).cursor as int],
    {
        // The length is a `usize`, so the cursor below it can move on by one.
        let _len = self.tokens.len();
        let t = self.tokens[self.cursor];
        self.cursor = self.cursor + 1;
        t
    }

    /// Consumes the next token if it has the given kind, and fails otherwise.
    pub fn expect(&mut self, kind: Kind) -> (r: Result<Token, ParseError>)
        requires
            old(self).wf(),
            kind != Kind::Eof,
        ensures
            final(self).wf(),
            final(self).tokens@ == old(self).tokens@,
            r is Ok <==> old(self).spec_nth(0) == kind,
            r is Ok ==> final(self).cursor == old(self).cursor + 1 && r->Ok_0
                == old(self).tokens@[old(self).cursor as int],
            r is Err ==> final(self).cursor == old(self).cursor && r->Err_0.expected
                == Expected::Token(kind) && r->Err_0.span == old(self).spec_next_span(),
    {
        if self.nth(0) == kind {
            Ok(self.bump())
        } else {
            Err(ParseError { span: self.next_span(), expected: Expected::Token(kind) })
        }
    }
}

} // verus!
