use crate::ast::{
    attr_same, attr_tokens, attr_wf, attrs_same, attrs_tokens, attrs_wf, body_same, body_tokens,
    body_wf, file_same, file_tokens, file_wf, is_attr_content, item_same, item_tokens, item_wf,
    items_same, items_tokens, items_wf, vis_tokens, vis_wf, Attribute, File, ItemInlineBody,
    ItemMod, ItemModBody, Items, Visibility,
};
use crate::parser::{
    span_at, kind_at, lemma_occurs_concat, lemma_occurs_index, occurs_at, Expected, ParseError, Parser,
};
use crate::token::{Kind, Token};
use vstd::prelude::*;

verus! {

/// Consuming from `a` to `c` is consuming from `a` to `b`, then from `b` to `c`.
proof fn lemma_consumed_split(s: Seq<Token>, a: int, b: int, c: int)
    requires
        0 <= a <= b <= c <= s.len(),
    ensures
        s.subrange(a, c) == s.subrange(a, b) + s.subrange(b, c),
{
    assert(s.subrange(a, c) =~= s.subrange(a, b) + s.subrange(b, c));
}

/// Appending an attribute appends its tokens.
proof fn lemma_attrs_tokens_push(s: Seq<Attribute>, a: Attribute)
    ensures
        attrs_tokens(s.push(a)) == attrs_tokens(s) + attr_tokens(a),
{
    assert(s.push(a).drop_last() =~= s);
}

/// The number of tokens before an attribute's content: `#[` or `#![`.
pub open spec fn attr_head_len(inner: bool) -> int {
    if inner {
        3
    } else {
        2
    }
}

/// A well-formed attribute stands at position `c`.
pub open spec fn attr_at(toks: Seq<Token>, c: int, a: Attribute, inner: bool) -> bool {
    attr_wf(a, inner) && occurs_at(toks, c, attr_tokens(a))
}

proof fn lemma_attr_shape(toks: Seq<Token>, c: int, a: Attribute, inner: bool)
    requires
        attr_at(toks, c, a, inner),
    ensures
        kind_at(toks, c) == Kind::Pound,
        kind_at(toks, c + 1) == (if inner {
            Kind::Bang
        } else {
            Kind::OpenBracket
        }),
        kind_at(toks, c + attr_head_len(inner) - 1) == Kind::OpenBracket,
        forall|j: int|
            0 <= j < a.content@.len() ==> is_attr_content(
                #[trigger] kind_at(toks, c + attr_head_len(inner) + j),
            ),
        kind_at(toks, c + attr_head_len(inner) + a.content@.len()) == Kind::CloseBracket,
        attr_tokens(a).len() == attr_head_len(inner) + a.content@.len() + 1,
        toks[c] == a.pound,
        inner ==> toks[c + 1] == a.bang->Some_0,
        toks[c + attr_head_len(inner) - 1] == a.open,
        toks.subrange(c + attr_head_len(inner), c + attr_head_len(inner) + a.content@.len())
            == a.content@,
        toks[c + attr_head_len(inner) + a.content@.len()] == a.close,
{
    let t = attr_tokens(a);
    let h = attr_head_len(inner);
    lemma_occurs_index(toks, c, t, 0);
    lemma_occurs_index(toks, c, t, 1);
    lemma_occurs_index(toks, c, t, h - 1);
    lemma_occurs_index(toks, c, t, h + a.content@.len());
    assert forall|j: int| 0 <= j < a.content@.len() implies is_attr_content(
        #[trigger] kind_at(toks, c + h + j),
    ) by {
        lemma_occurs_index(toks, c, t, h + j);
        assert(t[h + j] == a.content@[j]);
    }
    assert forall|j: int| 0 <= j < a.content@.len() implies toks[c + h + j] == a.content@[j] by {
        lemma_occurs_index(toks, c, t, h + j);
        assert(t[h + j] == a.content@[j]);
    }
    assert(toks.subrange(c + h, c + h + a.content@.len()) =~= a.content@);
}

/// An attribute, outer or inner as asked, starts at position `i`.
pub open spec fn attr_starts_at(toks: Seq<Token>, i: int, inner: bool) -> bool {
    kind_at(toks, i) == Kind::Pound && kind_at(toks, i + 1) == (if inner {
        Kind::Bang
    } else {
        Kind::OpenBracket
    })
}

/// A run of well-formed attributes stands at position `c`.
pub open spec fn attrs_at(toks: Seq<Token>, c: int, s: Seq<Attribute>, inner: bool) -> bool {
    attrs_wf(s, inner) && occurs_at(toks, c, attrs_tokens(s))
}

proof fn lemma_attrs_prefix(s: Seq<Attribute>, k: int)
    requires
        0 <= k <= s.len(),
    ensures
        attrs_tokens(s) == attrs_tokens(s.subrange(0, k)) + attrs_tokens(s.subrange(k, s.len() as int)),
    decreases s.len(),
{
    if k == s.len() {
        assert(s.subrange(0, k) =~= s);
        assert(attrs_tokens(s.subrange(k, s.len() as int)) =~= Seq::<Token>::empty());
        assert(attrs_tokens(s) =~= attrs_tokens(s) + Seq::<Token>::empty());
    } else {
        let dl = s.drop_last();
        lemma_attrs_prefix(dl, k);
        assert(dl.subrange(0, k) =~= s.subrange(0, k));
        assert(s.subrange(k, s.len() as int).drop_last() =~= dl.subrange(k, dl.len() as int));
        assert(s.subrange(k, s.len() as int).last() == s.last());
        assert(attrs_tokens(s) =~= attrs_tokens(s.subrange(0, k)) + attrs_tokens(
            s.subrange(k, s.len() as int),
        ));
    }
}

/// In a run of attributes standing at `c`, the `k`-th stands right after the
/// ones before it.
proof fn lemma_attrs_step(toks: Seq<Token>, c: int, s: Seq<Attribute>, k: int, inner: bool)
    requires
        attrs_at(toks, c, s, inner),
        0 <= k < s.len(),
    ensures
        attr_at(toks, c + attrs_tokens(s.subrange(0, k)).len(), s[k], inner),
        attrs_tokens(s.subrange(0, k + 1)).len() == attrs_tokens(s.subrange(0, k)).len()
            + attr_tokens(s[k]).len(),
{
    lemma_attrs_prefix(s, k + 1);
    let pre = s.subrange(0, k + 1);
    assert(pre.drop_last() =~= s.subrange(0, k));
    assert(attrs_tokens(pre) == attrs_tokens(s.subrange(0, k)) + attr_tokens(s[k]));
    lemma_occurs_concat(toks, c, attrs_tokens(pre), attrs_tokens(s.subrange(k + 1, s.len() as int)));
    lemma_occurs_concat(toks, c, attrs_tokens(s.subrange(0, k)), attr_tokens(s[k]));
    assert(attr_wf(s[k], inner));
}

fn is_attr_content_kind(k: Kind) -> (r: bool)
    ensures
        r == is_attr_content(k),
{
    !matches!(k, Kind::OpenBracket | Kind::CloseBracket | Kind::Eof)
}

impl Attribute {
    /// Whether an attribute starts at the cursor: `#[` for an outer one, `#!`
    /// for an inner one. Consumes nothing and never fails.
    pub fn peek(p: &Parser, inner: bool) -> (r: bool)
        requires
            p.wf(),
        ensures
            r == Self::peek_spec(*p, inner),
    {
        let second = if inner { Kind::Bang } else { Kind::OpenBracket };
        p.nth(0) == Kind::Pound && p.nth(1) == second
    }

    /// Parses one attribute, outer or inner as asked.
    pub fn parse(p: &mut Parser, inner: bool) -> (r: Result<Attribute, ParseError>)
        requires
            old(p).wf(),
        ensures
            final(p).wf(),
            old(p).advanced_to(final(p)),
            old(p).spec_nth(0) != Kind::Pound ==> r is Err,
            r matches Ok(a) ==> attr_wf(a, inner) && old(p).consumed(final(p)) == attr_tokens(a),
            forall|a: Attribute| #[trigger]
                attr_at(old(p).tokens@, old(p).cursor as int, a, inner) ==> (r is Ok
                    && final(p).cursor == old(p).cursor + attr_tokens(a).len() && attr_same(
                    r->Ok_0,
                    a,
                )),
    {
        let ghost toks = p.tokens@;
        let ghost c0 = p.cursor as int;
        let ghost h = attr_head_len(inner);
        let pound = match p.expect(Kind::Pound) {
            Ok(t) => t,
            Err(e) => {
                proof {
                    assert forall|a: Attribute| #[trigger] attr_at(toks, c0, a, inner) implies false by {
                        lemma_attr_shape(toks, c0, a, inner);
                    }
                }
                return Err(e);
            },
        };
        let bang = if inner {
            match p.expect(Kind::Bang) {
                Ok(t) => Some(t),
                Err(e) => {
                    proof {
                        assert forall|a: Attribute| #[trigger]
                            attr_at(toks, c0, a, inner) implies false by {
                            lemma_attr_shape(toks, c0, a, inner);
                        }
                    }
                    return Err(e);
                },
            }
        } else {
            None
        };
        let open = match p.expect(Kind::OpenBracket) {
            Ok(t) => t,
            Err(e) => {
                proof {
                    assert forall|a: Attribute| #[trigger] attr_at(toks, c0, a, inner) implies false by {
                        lemma_attr_shape(toks, c0, a, inner);
                    }
                }
                return Err(e);
            },
        };
        let ghost c1 = p.cursor as int;
        assert(c1 == c0 + h);
        let mut content: Vec<Token> = Vec::new();
        while is_attr_content_kind(p.nth(0))
            invariant
                p.wf(),
                p.tokens@ == toks,
                0 <= c1 <= p.cursor,
                h == attr_head_len(inner),
                c1 == c0 + h,
                content@ == toks.subrange(c1, p.cursor as int),
                forall|i: int| 0 <= i < content@.len() ==> is_attr_content(#[trigger] content@[i].kind),
                forall|a: Attribute| #[trigger]
                    attr_at(toks, c0, a, inner) ==> p.cursor <= c1 + a.content@.len(),
            decreases p.tokens@.len() - p.cursor,
        {
            proof {
                assert forall|a: Attribute| #[trigger] attr_at(toks, c0, a, inner) implies p.cursor
                    < c1 + a.content@.len() by {
                    lemma_attr_shape(toks, c0, a, inner);
                }
            }
            let t = p.bump();
            content.push(t);
            assert(content@ =~= toks.subrange(c1, p.cursor as int));
        }
        proof {
            assert forall|a: Attribute| #[trigger] attr_at(toks, c0, a, inner) implies p.cursor
                == c1 + a.content@.len() by {
                lemma_attr_shape(toks, c0, a, inner);
                if p.cursor < c1 + a.content@.len() {
                    assert(is_attr_content(kind_at(toks, c0 + h + (p.cursor - c1))));
                }
            }
        }
        let close = match p.expect(Kind::CloseBracket) {
            Ok(t) => t,
            Err(e) => {
                proof {
                    assert forall|a: Attribute| #[trigger] attr_at(toks, c0, a, inner) implies false by {
                        lemma_attr_shape(toks, c0, a, inner);
                    }
                }
                return Err(e);
            },
        };
        let a = Attribute { pound, bang, open, content, close };
        assert(toks.subrange(c0, p.cursor as int) =~= attr_tokens(a));
        proof {
            assert forall|b: Attribute| #[trigger] attr_at(toks, c0, b, inner) implies p.cursor
                == c0 + attr_tokens(b).len() && attr_same(a, b) by {
                lemma_attr_shape(toks, c0, b, inner);
            }
        }
        Ok(a)
    }

    /// Parses a run of attributes, outer or inner as asked, as long as one
    /// starts at the cursor.
    pub fn parse_all(p: &mut Parser, inner: bool) -> (r: Result<Vec<Attribute>, ParseError>)
        requires
            old(p).wf(),
        ensures
            final(p).wf(),
            old(p).advanced_to(final(p)),
            !Self::peek_spec(*old(p), inner) ==> (r matches Ok(v) && v@.len() == 0
                && final(p).cursor == old(p).cursor),
            r matches Ok(v) ==> attrs_wf(v@, inner) && old(p).consumed(final(p)) == attrs_tokens(
                v@,
            ) && !Self::peek_spec(*final(p), inner),
            forall|s: Seq<Attribute>| #[trigger]
                attrs_at(old(p).tokens@, old(p).cursor as int, s, inner) && !attr_starts_at(
                    old(p).tokens@,
                    old(p).cursor + attrs_tokens(s).len(),
                    inner,
                ) ==> (r is Ok && final(p).cursor == old(p).cursor + attrs_tokens(s).len()
                    && attrs_same(r->Ok_0@, s)),
    {
        let ghost toks = p.tokens@;
        let ghost c0 = p.cursor as int;
        let mut attrs: Vec<Attribute> = Vec::new();
        proof {
            assert(toks.subrange(c0, c0) =~= attrs_tokens(attrs@));
            assert forall|s: Seq<Attribute>| #[trigger] attrs_at(toks, c0, s, inner) implies p.cursor
                == c0 + attrs_tokens(s.subrange(0, 0)).len() && attrs_same(
                attrs@,
                s.subrange(0, 0),
            ) by {
                assert(s.subrange(0, 0).len() == 0);
            }
        }
        while Attribute::peek(p, inner)
            invariant
                p.wf(),
                p.tokens@ == toks,
                toks == old(p).tokens@,
                c0 == old(p).cursor,
                c0 <= p.cursor,
                attrs_wf(attrs@, inner),
                toks.subrange(c0, p.cursor as int) == attrs_tokens(attrs@),
                !Self::peek_spec(*old(p), inner) ==> attrs@.len() == 0 && p.cursor == c0,
                forall|s: Seq<Attribute>| #[trigger]
                    attrs_at(toks, c0, s, inner) && !attr_starts_at(
                        toks,
                        c0 + attrs_tokens(s).len(),
                        inner,
                    ) ==> attrs@.len() <= s.len() && p.cursor == c0 + attrs_tokens(
                        s.subrange(0, attrs@.len() as int),
                    ).len() && attrs_same(attrs@, s.subrange(0, attrs@.len() as int)),
            decreases p.tokens@.len() - p.cursor,
        {
            let ghost c1 = p.cursor as int;
            let ghost k = attrs@.len() as int;
            proof {
                assert forall|s: Seq<Attribute>| #[trigger]
                    attrs_at(toks, c0, s, inner) && !attr_starts_at(
                        toks,
                        c0 + attrs_tokens(s).len(),
                        inner,
                    ) implies k < s.len() && attr_at(toks, c1, s[k], inner) by {
                    if k == s.len() {
                        assert(s.subrange(0, k) =~= s);
                    } else {
                        lemma_attrs_step(toks, c0, s, k, inner);
                    }
                }
            }
            let a = match Attribute::parse(p, inner) {
                Ok(a) => a,
                Err(e) => {
                    proof {
                        assert forall|s: Seq<Attribute>| #[trigger]
                            attrs_at(toks, c0, s, inner) && !attr_starts_at(
                                toks,
                                c0 + attrs_tokens(s).len(),
                                inner,
                            ) implies false by {
                            assert(attr_at(toks, c1, s[k], inner));
                        }
                    }
                    return Err(e);
                },
            };
            proof {
                assert(attr_tokens(a).len() >= 3);
                assert(p.cursor > c1);
                lemma_consumed_split(toks, c0, c1, p.cursor as int);
                lemma_attrs_tokens_push(attrs@, a);
                assert forall|s: Seq<Attribute>| #[trigger]
                    attrs_at(toks, c0, s, inner) && !attr_starts_at(
                        toks,
                        c0 + attrs_tokens(s).len(),
                        inner,
                    ) implies k + 1 <= s.len() && p.cursor == c0 + attrs_tokens(
                        s.subrange(0, k + 1),
                    ).len() && attrs_same(attrs@.push(a), s.subrange(0, k + 1)) by {
                    assert(attr_at(toks, c1, s[k], inner));
                    lemma_attrs_step(toks, c0, s, k, inner);
                    assert(attr_same(a, s[k]));
                    assert(attrs_same(attrs@, s.subrange(0, k)));
                    assert forall|i: int| 0 <= i < k + 1 implies attr_same(
                        #[trigger] attrs@.push(a)[i],
                        s.subrange(0, k + 1)[i],
                    ) by {
                        if i < k {
                            assert(attr_same(attrs@[i], s.subrange(0, k)[i]));
                        }
                    }
                }
            }
            attrs.push(a);
        }
        proof {
            assert forall|s: Seq<Attribute>| #[trigger]
                attrs_at(toks, c0, s, inner) && !attr_starts_at(
                    toks,
                    c0 + attrs_tokens(s).len(),
                    inner,
                ) implies p.cursor == c0 + attrs_tokens(s).len() && attrs_same(attrs@, s) by {
                let k = attrs@.len() as int;
                if k < s.len() {
                    lemma_attrs_step(toks, c0, s, k, inner);
                    lemma_attr_shape(toks, p.cursor as int, s[k], inner);
                }
                assert(s.subrange(0, k) =~= s);
            }
        }
        Ok(attrs)
    }

    /// An attribute, outer or inner as asked, starts at the cursor.
    pub open spec fn peek_spec(p: Parser, inner: bool) -> bool {
        attr_starts_at(p.tokens@, p.cursor as int, inner)
    }
}

impl Visibility {
    /// Parses an optional `pub`; never fails.
    pub fn parse(p: &mut Parser) -> (r: Visibility)
        requires
            old(p).wf(),
        ensures
            final(p).wf(),
            old(p).advanced_to(final(p)),
            vis_wf(r),
            r is Public <==> old(p).spec_nth(0) == Kind::Pub,
            r matches Visibility::Public(t) ==> t == old(p).tokens@[old(p).cursor as int],
            old(p).consumed(final(p)) == vis_tokens(r),
    {
        if p.nth(0) == Kind::Pub {
            let ghost c0 = p.cursor as int;
            let t = p.bump();
            assert(p.tokens@.subrange(c0, p.cursor as int) =~= seq![t]);
            Visibility::Public(t)
        } else {
            assert(p.tokens@.subrange(p.cursor as int, p.cursor as int) =~= Seq::<Token>::empty());
            Visibility::Inherited
        }
    }
}

/// A kind that may open an item: `#` of an outer attribute, `pub` or `mod`.
pub open spec fn starts_item(k: Kind) -> bool {
    k == Kind::Pound || k == Kind::Pub || k == Kind::Mod
}

/// A closing brace, or the end of input, stands at position `i`.
pub open spec fn ends_body(toks: Seq<Token>, i: int) -> bool {
    kind_at(toks, i) == Kind::CloseBrace || kind_at(toks, i) == Kind::Eof
}

/// A well-formed module item stands at position `c`.
pub open spec fn item_at(toks: Seq<Token>, c: int, m: ItemMod) -> bool {
    item_wf(m) && occurs_at(toks, c, item_tokens(m))
}

/// The part of a well-formed module item from its `mod` keyword on stands at
/// position `c`.
pub open spec fn item_tail_at(toks: Seq<Token>, c: int, m: ItemMod) -> bool {
    &&& m.mod_token.kind == Kind::Mod
    &&& m.name.kind == Kind::Ident
    &&& body_wf(m.body)
    &&& occurs_at(toks, c, seq![m.mod_token, m.name] + body_tokens(m.body))
}

/// A well-formed body stands at position `c`.
pub open spec fn body_at(toks: Seq<Token>, c: int, b: ItemModBody) -> bool {
    body_wf(b) && occurs_at(toks, c, body_tokens(b))
}

/// A well-formed inline body stands at position `c`.
pub open spec fn inline_at(toks: Seq<Token>, c: int, b: ItemInlineBody) -> bool {
    body_at(toks, c, ItemModBody::InlineBody(b))
}

/// A well-formed file stands at position `c`, followed by a closing brace or
/// the end of input.
pub open spec fn file_at(toks: Seq<Token>, c: int, f: File) -> bool {
    file_wf(f) && occurs_at(toks, c, file_tokens(f)) && ends_body(toks, c + file_tokens(f).len())
}

/// Well-formed items stand at position `c`, followed by a closing brace or
/// the end of input.
pub open spec fn items_at(toks: Seq<Token>, c: int, l: Items) -> bool {
    items_wf(l) && occurs_at(toks, c, items_tokens(l)) && ends_body(
        toks,
        c + items_tokens(l).len(),
    )
}

/// An item starts with an outer attribute, `pub` or `mod`: never with a
/// closing brace or an inner attribute.
proof fn lemma_item_start(toks: Seq<Token>, c: int, m: ItemMod)
    requires
        item_at(toks, c, m),
    ensures
        !ends_body(toks, c),
        !attr_starts_at(toks, c, true),
{
    let s = m.attributes@;
    let a = attrs_tokens(s);
    let v = vis_tokens(m.visibility);
    let t = item_tokens(m);
    assert(t =~= a + (v + (seq![m.mod_token, m.name] + body_tokens(m.body))));
    if s.len() > 0 {
        lemma_attrs_prefix(s, 1);
        let first = s.subrange(0, 1);
        assert(first.drop_last() =~= Seq::<Attribute>::empty());
        assert(attrs_tokens(first.drop_last()) =~= Seq::<Token>::empty());
        assert(attrs_tokens(first) =~= attr_tokens(s[0]));
        assert(attr_wf(s[0], false));
        assert(t[0] == s[0].pound);
        assert(t[1] == s[0].open);
        lemma_occurs_index(toks, c, t, 0);
        lemma_occurs_index(toks, c, t, 1);
    } else {
        assert(a =~= Seq::<Token>::empty());
        lemma_occurs_index(toks, c, t, 0);
        if m.visibility is Public {
            assert(t[0] == v[0]);
        } else {
            assert(t[0] == m.mod_token);
        }
    }
}

/// How a module item standing at `c` splits: its attributes, then its
/// visibility (a `pub` token exactly when it is public), then the part from
/// `mod` on.
proof fn lemma_item_parts(toks: Seq<Token>, c: int, m: ItemMod)
    requires
        item_at(toks, c, m),
    ensures
        attrs_at(toks, c, m.attributes@, false),
        !attr_starts_at(toks, c + attrs_tokens(m.attributes@).len(), false),
        (kind_at(toks, c + attrs_tokens(m.attributes@).len()) == Kind::Pub) <==> (
        m.visibility is Public),
        item_tail_at(
            toks,
            c + attrs_tokens(m.attributes@).len() + vis_tokens(m.visibility).len(),
            m,
        ),
        item_tokens(m).len() == attrs_tokens(m.attributes@).len() + vis_tokens(m.visibility).len() + 2
            + body_tokens(m.body).len(),
        m.visibility matches Visibility::Public(t) ==> toks[c + attrs_tokens(m.attributes@).len()]
            == t,
{
    let a = attrs_tokens(m.attributes@);
    let v = vis_tokens(m.visibility);
    let rest = seq![m.mod_token, m.name] + body_tokens(m.body);
    assert(item_tokens(m) =~= a + (v + rest));
    lemma_occurs_concat(toks, c, a, v + rest);
    lemma_occurs_concat(toks, c + a.len(), v, rest);
    lemma_occurs_index(toks, c + a.len(), v + rest, 0);
    if m.visibility is Public {
        assert((v + rest)[0] == v[0]);
    } else {
        assert((v + rest)[0] == m.mod_token);
    }
}

impl ItemMod {
    /// Parses a module item from its `mod` keyword on, given the outer
    /// attributes and visibility that the caller has already parsed.
    pub fn parse_with_meta(p: &mut Parser, attributes: Vec<Attribute>, visibility: Visibility) -> (r:
        Result<ItemMod, ParseError>)
        requires
            old(p).wf(),
        ensures
            final(p).wf(),
            old(p).advanced_to(final(p)),
            old(p).spec_nth(0) != Kind::Mod ==> r == Err::<ItemMod, ParseError>(
                ParseError { span: old(p).spec_next_span(), expected: Expected::Token(Kind::Mod) },
            ),
            old(p).spec_nth(0) == Kind::Mod && old(p).spec_nth(1) != Kind::Ident ==> r == Err::<
                ItemMod,
                ParseError,
            >(
                ParseError {
                    span: span_at(old(p).tokens@, old(p).cursor + 1),
                    expected: Expected::Token(Kind::Ident),
                },
            ),
            r matches Ok(m) ==> {
                &&& m.id is None
                &&& m.attributes@ == attributes@
                &&& m.visibility == visibility
                &&& m.mod_token.kind == Kind::Mod
                &&& m.name.kind == Kind::Ident
                &&& body_wf(m.body)
                &&& old(p).consumed(final(p)) == seq![m.mod_token, m.name] + body_tokens(m.body)
            },
            forall|m: ItemMod| #[trigger]
                item_tail_at(old(p).tokens@, old(p).cursor as int, m) ==> (r is Ok
                    && final(p).cursor == old(p).cursor + 2 + body_tokens(m.body).len()
                    && r->Ok_0.mod_token == m.mod_token && r->Ok_0.name == m.name && body_same(
                    r->Ok_0.body,
                    m.body,
                )),
        decreases old(p).tokens@.len() - old(p).cursor, 3nat,
    {
        let ghost toks = p.tokens@;
        let ghost c0 = p.cursor as int;
        proof {
            assert forall|m: ItemMod| #[trigger] item_tail_at(toks, c0, m) implies kind_at(toks, c0)
                == Kind::Mod && kind_at(toks, c0 + 1) == Kind::Ident && body_at(
                toks,
                c0 + 2,
                m.body,
            ) && toks[c0] == m.mod_token && toks[c0 + 1] == m.name by {
                let t = seq![m.mod_token, m.name] + body_tokens(m.body);
                lemma_occurs_index(toks, c0, t, 0);
                lemma_occurs_index(toks, c0, t, 1);
                lemma_occurs_concat(toks, c0, seq![m.mod_token, m.name], body_tokens(m.body));
            }
        }
        let mod_token = p.expect(Kind::Mod)?;
        let name = p.expect(Kind::Ident)?;
        let ghost c1 = p.cursor as int;
        let body = match ItemModBody::parse(p) {
            Ok(b) => b,
            Err(e) => {
                proof {
                    assert forall|m: ItemMod| #[trigger] item_tail_at(toks, c0, m) implies false by {
                        assert(body_at(toks, c1, m.body));
                    }
                }
                return Err(e);
            },
        };
        proof {
            lemma_consumed_split(toks, c0, c1, p.cursor as int);
            assert(toks.subrange(c0, c1) =~= seq![mod_token, name]);
            assert forall|m: ItemMod| #[trigger] item_tail_at(toks, c0, m) implies p.cursor == c0 + 2
                + body_tokens(m.body).len() && mod_token == m.mod_token && name == m.name
                && body_same(body, m.body) by {
                assert(body_at(toks, c1, m.body));
            }
        }
        Ok(ItemMod { id: None, attributes, visibility, mod_token, name, body })
    }

    /// Parses a module item with its outer attributes and visibility.
    pub fn parse(p: &mut Parser) -> (r: Result<ItemMod, ParseError>)
        requires
            old(p).wf(),
        ensures
            final(p).wf(),
            old(p).advanced_to(final(p)),
            r matches Ok(m) ==> m.id is None && item_wf(m) && old(p).consumed(final(p))
                == item_tokens(m),
            !starts_item(old(p).spec_nth(0)) ==> r == Err::<ItemMod, ParseError>(
                ParseError { span: old(p).spec_next_span(), expected: Expected::Token(Kind::Mod) },
            ),
            forall|m: ItemMod| #[trigger] item_at(old(p).tokens@, old(p).cursor as int, m) ==> (r is Ok
                && final(p).cursor == old(p).cursor + item_tokens(m).len() && item_same(r->Ok_0, m)),
        decreases old(p).tokens@.len() - old(p).cursor, 4nat,
    {
        let ghost toks = p.tokens@;
        let ghost c0 = p.cursor as int;
        let attributes = match Attribute::parse_all(p, false) {
            Ok(v) => v,
            Err(e) => {
                proof {
                    assert forall|m: ItemMod| #[trigger] item_at(toks, c0, m) implies false by {
                        lemma_item_parts(toks, c0, m);
                    }
                }
                return Err(e);
            },
        };
        let ghost c1 = p.cursor as int;
        let visibility = Visibility::parse(p);
        let ghost c2 = p.cursor as int;
        proof {
            assert forall|m: ItemMod| #[trigger] item_at(toks, c0, m) implies item_tail_at(toks, c2, m)
                && c2 + 2 + body_tokens(m.body).len() == c0 + item_tokens(m).len() && attrs_same(
                attributes@,
                m.attributes@,
            ) && visibility == m.visibility by {
                lemma_item_parts(toks, c0, m);
            }
        }
        let m = match ItemMod::parse_with_meta(p, attributes, visibility) {
            Ok(m) => m,
            Err(e) => {
                proof {
                    assert forall|m: ItemMod| #[trigger] item_at(toks, c0, m) implies false by {
                        assert(item_tail_at(toks, c2, m));
                    }
                }
                return Err(e);
            },
        };
        proof {
            lemma_consumed_split(toks, c0, c1, c2);
            lemma_consumed_split(toks, c0, c2, p.cursor as int);
            assert(item_tokens(m) =~= toks.subrange(c0, p.cursor as int));
            assert forall|n: ItemMod| #[trigger] item_at(toks, c0, n) implies p.cursor == c0
                + item_tokens(n).len() && item_same(m, n) by {
                assert(item_tail_at(toks, c2, n));
            }
        }
        Ok(m)
    }
}

impl ItemModBody {
    /// Parses a body: an inline body where the next token opens a brace, an
    /// empty body where it is a semicolon, and an error naming both otherwise.
    pub fn parse(p: &mut Parser) -> (r: Result<ItemModBody, ParseError>)
        requires
            old(p).wf(),
        ensures
            final(p).wf(),
            old(p).advanced_to(final(p)),
            r matches Ok(b) ==> body_wf(b) && old(p).consumed(final(p)) == body_tokens(b),
            r matches Ok(b) ==> (b is InlineBody <==> old(p).spec_nth(0) == Kind::OpenBrace),
            old(p).spec_nth(0) == Kind::SemiColon ==> (r matches Ok(b) && b is EmptyBody),
            old(p).spec_nth(0) != Kind::SemiColon && old(p).spec_nth(0) != Kind::OpenBrace ==> (
            r matches Err(e) && e.expected == Expected::ModBody && e.span == old(
                p,
            ).spec_next_span() && final(p).cursor == old(p).cursor),
            forall|b: ItemModBody| #[trigger] body_at(old(p).tokens@, old(p).cursor as int, b) ==> (
            r is Ok && final(p).cursor == old(p).cursor + body_tokens(b).len() && body_same(
                r->Ok_0,
                b,
            )),
        decreases old(p).tokens@.len() - old(p).cursor, 2nat,
    {
        let ghost toks = p.tokens@;
        let ghost c0 = p.cursor as int;
        proof {
            assert forall|b: ItemModBody| #[trigger] body_at(toks, c0, b) implies (match b {
                ItemModBody::EmptyBody(t) => kind_at(toks, c0) == Kind::SemiColon && toks[c0] == t,
                ItemModBody::InlineBody(ib) => inline_at(toks, c0, ib) && kind_at(toks, c0)
                    == Kind::OpenBrace,
            }) by {
                lemma_occurs_index(toks, c0, body_tokens(b), 0);
            }
        }
        if ItemInlineBody::peek(p) {
            let body = ItemInlineBody::parse(p)?;
            Ok(ItemModBody::InlineBody(body))
        } else if p.nth(0) == Kind::SemiColon {
            let t = p.bump();
            assert(p.tokens@.subrange(c0, p.cursor as int) =~= seq![t]);
            Ok(ItemModBody::EmptyBody(t))
        } else {
            Err(ParseError { span: p.next_span(), expected: Expected::ModBody })
        }
    }
}

impl ItemInlineBody {
    /// Whether an inline body starts at the cursor. Consumes nothing.
    pub fn peek(p: &Parser) -> (r: bool)
        requires
            p.wf(),
        ensures
            r == (p.spec_nth(0) == Kind::OpenBrace),
    {
        p.nth(0) == Kind::OpenBrace
    }

    /// Parses `{`, a nested file, then `}`.
    pub fn parse(p: &mut Parser) -> (r: Result<ItemInlineBody, ParseError>)
        requires
            old(p).wf(),
        ensures
            final(p).wf(),
            old(p).advanced_to(final(p)),
            r matches Ok(b) ==> body_wf(ItemModBody::InlineBody(b)) && old(p).consumed(final(p))
                == body_tokens(ItemModBody::InlineBody(b)),
            old(p).spec_nth(0) != Kind::OpenBrace ==> r == Err::<ItemInlineBody, ParseError>(
                ParseError {
                    span: old(p).spec_next_span(),
                    expected: Expected::Token(Kind::OpenBrace),
                },
            ),
            forall|b: ItemInlineBody| #[trigger] inline_at(old(p).tokens@, old(p).cursor as int, b)
                ==> (r is Ok && final(p).cursor == old(p).cursor + body_tokens(
                ItemModBody::InlineBody(b),
            ).len() && body_same(ItemModBody::InlineBody(r->Ok_0), ItemModBody::InlineBody(b))),
        decreases old(p).tokens@.len() - old(p).cursor, 1nat,
    {
        let ghost toks = p.tokens@;
        let ghost c0 = p.cursor as int;
        proof {
            assert forall|b: ItemInlineBody| #[trigger] inline_at(toks, c0, b) implies kind_at(toks, c0)
                == Kind::OpenBrace && file_at(toks, c0 + 1, *b.file) && toks[c0] == b.open by {
                let f = file_tokens(*b.file);
                let t = body_tokens(ItemModBody::InlineBody(b));
                assert(t =~= seq![b.open] + (f + seq![b.close]));
                lemma_occurs_index(toks, c0, t, 0);
                lemma_occurs_concat(toks, c0, seq![b.open], f + seq![b.close]);
                lemma_occurs_concat(toks, c0 + 1, f, seq![b.close]);
                lemma_occurs_index(toks, c0 + 1 + f.len(), seq![b.close], 0);
            }
        }
        let open = p.expect(Kind::OpenBrace)?;
        let ghost c1 = p.cursor as int;
        let file = match File::parse(p) {
            Ok(f) => f,
            Err(e) => {
                proof {
                    assert forall|b: ItemInlineBody| #[trigger] inline_at(toks, c0, b) implies false by {
                        assert(file_at(toks, c1, *b.file));
                    }
                }
                return Err(e);
            },
        };
        let ghost c2 = p.cursor as int;
        proof {
            assert forall|b: ItemInlineBody| #[trigger] inline_at(toks, c0, b) implies c2 == c1
                + file_tokens(*b.file).len() && kind_at(toks, c2) == Kind::CloseBrace && toks[c2]
                == b.close && file_same(file, *b.file) by {
                assert(file_at(toks, c1, *b.file));
                let f = file_tokens(*b.file);
                let t = body_tokens(ItemModBody::InlineBody(b));
                assert(t =~= seq![b.open] + (f + seq![b.close]));
                lemma_occurs_concat(toks, c0, seq![b.open], f + seq![b.close]);
                lemma_occurs_concat(toks, c0 + 1, f, seq![b.close]);
                lemma_occurs_index(toks, c0 + 1 + f.len(), seq![b.close], 0);
            }
        }
        let close = p.expect(Kind::CloseBrace)?;
        let b = ItemInlineBody { open, file: Box::new(file), close };
        proof {
            lemma_consumed_split(toks, c0, c1, c2);
            lemma_consumed_split(toks, c0, c2, p.cursor as int);
            assert(body_tokens(ItemModBody::InlineBody(b)) =~= toks.subrange(c0, p.cursor as int));
            assert forall|d: ItemInlineBody| #[trigger] inline_at(toks, c0, d) implies p.cursor == c0
                + body_tokens(ItemModBody::InlineBody(d)).len() && body_same(
                ItemModBody::InlineBody(b),
                ItemModBody::InlineBody(d),
            ) by {
                assert(file_at(toks, c1, *d.file));
                assert(body_tokens(ItemModBody::InlineBody(d)) =~= seq![d.open] + file_tokens(*d.file)
                    + seq![d.close]);
            }
        }
        Ok(b)
    }
}

impl File {
    /// Parses inner attributes, then items up to a closing brace or the end
    /// of input, which it leaves in place.
    pub fn parse(p: &mut Parser) -> (r: Result<File, ParseError>)
        requires
            old(p).wf(),
        ensures
            final(p).wf(),
            old(p).advanced_to(final(p)),
            r matches Ok(f) ==> file_wf(f) && old(p).consumed(final(p)) == file_tokens(f) && (
            final(p).spec_nth(0) == Kind::CloseBrace || final(p).spec_nth(0) == Kind::Eof),
            !starts_item(old(p).spec_nth(0)) && old(p).spec_nth(0) != Kind::CloseBrace && old(
                p,
            ).spec_nth(0) != Kind::Eof ==> r == Err::<File, ParseError>(
                ParseError { span: old(p).spec_next_span(), expected: Expected::Token(Kind::Mod) },
            ),
            forall|f: File| #[trigger] file_at(old(p).tokens@, old(p).cursor as int, f) ==> (r is Ok
                && final(p).cursor == old(p).cursor + file_tokens(f).len() && file_same(r->Ok_0, f)),
        decreases old(p).tokens@.len() - old(p).cursor, 6nat,
    {
        let ghost toks = p.tokens@;
        let ghost c0 = p.cursor as int;
        proof {
            assert forall|f: File| #[trigger] file_at(toks, c0, f) implies attrs_at(
                toks,
                c0,
                f.attributes@,
                true,
            ) && !attr_starts_at(toks, c0 + attrs_tokens(f.attributes@).len(), true) && items_at(
                toks,
                c0 + attrs_tokens(f.attributes@).len(),
                f.items,
            ) by {
                let a = attrs_tokens(f.attributes@);
                lemma_occurs_concat(toks, c0, a, items_tokens(f.items));
                if let Items::Cons(m, rest) = f.items {
                    lemma_occurs_concat(toks, c0 + a.len(), item_tokens(m), items_tokens(*rest));
                    lemma_item_start(toks, c0 + a.len(), m);
                }
            }
        }
        let attributes = match Attribute::parse_all(p, true) {
            Ok(v) => v,
            Err(e) => {
                proof {
                    assert forall|f: File| #[trigger] file_at(toks, c0, f) implies false by {
                        assert(attrs_at(toks, c0, f.attributes@, true));
                    }
                }
                return Err(e);
            },
        };
        let ghost c1 = p.cursor as int;
        let items = match Items::parse(p) {
            Ok(l) => l,
            Err(e) => {
                proof {
                    assert forall|f: File| #[trigger] file_at(toks, c0, f) implies false by {
                        assert(attrs_at(toks, c0, f.attributes@, true));
                        assert(items_at(toks, c1, f.items));
                    }
                }
                return Err(e);
            },
        };
        proof {
            lemma_consumed_split(toks, c0, c1, p.cursor as int);
            assert forall|f: File| #[trigger] file_at(toks, c0, f) implies p.cursor == c0
                + file_tokens(f).len() && file_same(File { attributes, items }, f) by {
                assert(attrs_at(toks, c0, f.attributes@, true));
                assert(items_at(toks, c1, f.items));
            }
        }
        Ok(File { attributes, items })
    }
}

impl Items {
    /// Parses items up to a closing brace or the end of input.
    pub fn parse(p: &mut Parser) -> (r: Result<Items, ParseError>)
        requires
            old(p).wf(),
        ensures
            final(p).wf(),
            old(p).advanced_to(final(p)),
            r matches Ok(l) ==> items_wf(l) && old(p).consumed(final(p)) == items_tokens(l) && (
            final(p).spec_nth(0) == Kind::CloseBrace || final(p).spec_nth(0) == Kind::Eof),
            !starts_item(old(p).spec_nth(0)) && old(p).spec_nth(0) != Kind::CloseBrace && old(
                p,
            ).spec_nth(0) != Kind::Eof ==> r == Err::<Items, ParseError>(
                ParseError { span: old(p).spec_next_span(), expected: Expected::Token(Kind::Mod) },
            ),
            forall|l: Items| #[trigger] items_at(old(p).tokens@, old(p).cursor as int, l) ==> (r is Ok
                && final(p).cursor == old(p).cursor + items_tokens(l).len() && items_same(r->Ok_0, l)),
        decreases old(p).tokens@.len() - old(p).cursor, 5nat,
    {
        let ghost toks = p.tokens@;
        let ghost c0 = p.cursor as int;
        proof {
            assert forall|l: Items| #[trigger] items_at(toks, c0, l) implies (match l {
                Items::Nil => ends_body(toks, c0),
                Items::Cons(m, rest) => item_at(toks, c0, m) && !ends_body(toks, c0) && items_at(
                    toks,
                    c0 + item_tokens(m).len(),
                    *rest,
                ),
            }) by {
                if let Items::Cons(m, rest) = l {
                    lemma_occurs_concat(toks, c0, item_tokens(m), items_tokens(*rest));
                    lemma_item_start(toks, c0, m);
                }
            }
        }
        let next = p.nth(0);
        if next == Kind::CloseBrace || next == Kind::Eof {
            assert(p.tokens@.subrange(p.cursor as int, p.cursor as int) =~= Seq::<Token>::empty());
            return Ok(Items::Nil);
        }
        let m = match ItemMod::parse(p) {
            Ok(m) => m,
            Err(e) => {
                proof {
                    assert forall|l: Items| #[trigger] items_at(toks, c0, l) implies false by {
                        if let Items::Cons(n, _) = l {
                            assert(item_at(toks, c0, n));
                        }
                    }
                }
                return Err(e);
            },
        };
        let ghost c1 = p.cursor as int;
        assert(c0 < c1) by {
            assert(item_tokens(m).len() >= 2);
        }
        let rest = match Items::parse(p) {
            Ok(l) => l,
            Err(e) => {
                proof {
                    assert forall|l: Items| #[trigger] items_at(toks, c0, l) implies false by {
                        if let Items::Cons(n, tail) = l {
                            assert(item_at(toks, c0, n));
                            assert(items_at(toks, c1, *tail));
                        }
                    }
                }
                return Err(e);
            },
        };
        proof {
            lemma_consumed_split(toks, c0, c1, p.cursor as int);
            assert forall|l: Items| #[trigger] items_at(toks, c0, l) implies p.cursor == c0
                + items_tokens(l).len() && items_same(Items::Cons(m, Box::new(rest)), l) by {
                if let Items::Cons(n, tail) = l {
                    assert(item_at(toks, c0, n));
                    assert(items_at(toks, c1, *tail));
                }
            }
        }
        Ok(Items::Cons(m, Box::new(rest)))
    }
}

/// Parses a whole token stream as one module item; tokens left after the
/// item are an error. The stream is accepted exactly when it is the token
/// sequence of a well-formed item; the result is then that very tree (its
/// identity tag aside), and its tokens are the stream.
pub fn parse_item_mod(tokens: Vec<Token>) -> (r: Result<ItemMod, ParseError>)
    ensures
        r matches Ok(m) ==> m.id is None && item_wf(m) && item_tokens(m) == tokens@,
        forall|m: ItemMod| #[trigger] item_tokens(m) == tokens@ && item_wf(m) ==> (r is Ok
            && item_same(r->Ok_0, m)),
        forall|m: ItemMod| #[trigger]
            item_at(tokens@, 0, m) && item_tokens(m).len() < tokens@.len() ==> r == Err::<
                ItemMod,
                ParseError,
            >(
                ParseError {
                    span: tokens@[item_tokens(m).len() as int].span,
                    expected: Expected::Token(Kind::Eof),
                },
            ),
{
    let ghost toks = tokens@;
    let mut p = Parser::new(tokens);
    proof {
        assert forall|m: ItemMod| #[trigger] item_tokens(m) == toks && item_wf(m) implies item_at(
            toks,
            0,
            m,
        ) by {
            assert(toks.subrange(0, toks.len() as int) =~= toks);
        }
    }
    let m = match ItemMod::parse(&mut p) {
        Ok(m) => m,
        Err(e) => {
            proof {
                assert forall|m: ItemMod| #[trigger] item_tokens(m) == toks && item_wf(m) implies false by {
                    assert(item_at(toks, 0, m));
                }
            }
            return Err(e);
        },
    };
    if !p.is_eof() {
        proof {
            assert forall|n: ItemMod| #[trigger] item_tokens(n) == toks && item_wf(n) implies false by {
                assert(item_at(toks, 0, n));
            }
        }
        return Err(ParseError { span: p.next_span(), expected: Expected::Token(Kind::Eof) });
    }
    assert(toks.subrange(0, toks.len() as int) =~= toks);
    proof {
        assert forall|n: ItemMod| #[trigger] item_tokens(n) == toks && item_wf(n) implies item_same(
            m,
            n,
        ) by {
            assert(item_at(toks, 0, n));
        }
    }
    Ok(m)
}

} // verus!
