use crate::parser::{Expected, ParseError, Parser};
use crate::span::Span;
use crate::token::{Kind, Token};
use vstd::prelude::*;

verus! {

/// An attribute: `#[...]` before an item, or `#![...]` inside a body, where
/// it applies to the body's contents. The content holds no brackets.
#[derive(Debug, Clone, PartialEq, Eq)]
pub struct Attribute {
    /// The `#` token.
    pub pound: Token,
    /// The `!` of an inner attribute.
    pub bang: Option<Token>,
    /// The `[` token.
    pub open: Token,
    /// The tokens between the brackets.
    pub content: Vec<Token>,
    /// The `]` token.
    pub close: Token,
}

/// The visibility of an item: private unless marked `pub`.
#[derive(Debug, Clone, Copy, PartialEq, Eq, Structural)]
pub enum Visibility {
    Inherited,
    Public(Token),
}

/// A module item: `#[attr] pub mod name;` or `mod name { ... }`.
#[derive(Debug, PartialEq, Eq)]
pub struct ItemMod {
    /// The identity tag, assigned by a later pass and never by the parser.
    pub id: Option<u32>,
    /// The outer attributes of the item, in source order.
    pub attributes: Vec<Attribute>,
    /// The visibility of the item.
    pub visibility: Visibility,
    /// The `mod` keyword.
    pub mod_token: Token,
    /// The name of the module.
    pub name: Token,
    /// The body of the module declaration.
    pub body: ItemModBody,
}

/// The body of a module item.
#[derive(Debug, PartialEq, Eq)]
pub enum ItemModBody {
    /// An empty body terminated by a semicolon.
    EmptyBody(Token),
    /// An inline body.
    InlineBody(ItemInlineBody),
}

/// A braced body that holds a nested file.
#[derive(Debug, PartialEq, Eq)]
pub struct ItemInlineBody {
    /// The open brace.
    pub open: Token,
    /// The nested file.
    pub file: Box<File>,
    /// The close brace.
    pub close: Token,
}

/// A sequence of items, preceded by inner attributes that apply to it.
#[derive(Debug, PartialEq, Eq)]
pub struct File {
    /// The inner attributes, in source order.
    pub attributes: Vec<Attribute>,
    /// The items, in source order.
    pub items: Items,
}

/// The items of a file, in source order.
#[derive(Debug, PartialEq, Eq)]
pub enum Items {
    Nil,
    Cons(ItemMod, Box<Items>),
}

// ---------------------------------------------------------------------------
// The token sequence of each node.

pub open spec fn opt_tokens(t: Option<Token>) -> Seq<Token> {
    match t {
        Some(t) => seq![t],
        None => seq![],
    }
}

pub open spec fn attr_tokens(a: Attribute) -> Seq<Token> {
    seq![a.pound] + opt_tokens(a.bang) + seq![a.open] + a.content@ + seq![a.close]
}

pub open spec fn attrs_tokens(s: Seq<Attribute>) -> Seq<Token>
    decreases s.len(),
{
    if s.len() == 0 {
        seq![]
    } else {
        attrs_tokens(s.drop_last()) + attr_tokens(s.last())
    }
}

pub open spec fn vis_tokens(v: Visibility) -> Seq<Token> {
    match v {
        Visibility::Inherited => seq![],
        Visibility::Public(t) => seq![t],
    }
}

/// The tokens of a module item, in source order.
pub open spec fn item_tokens(m: ItemMod) -> Seq<Token>
    decreases m,
{
    attrs_tokens(m.attributes@) + vis_tokens(m.visibility) + seq![m.mod_token, m.name]
        + body_tokens(m.body)
}

pub open spec fn body_tokens(b: ItemModBody) -> Seq<Token>
    decreases b,
{
    match b {
        ItemModBody::EmptyBody(t) => seq![t],
        ItemModBody::InlineBody(i) => seq![i.open] + file_tokens(*i.file) + seq![i.close],
    }
}

pub open spec fn file_tokens(f: File) -> Seq<Token>
    decreases f,
{
    attrs_tokens(f.attributes@) + items_tokens(f.items)
}

pub open spec fn items_tokens(l: Items) -> Seq<Token>
    decreases l,
{
    match l {
        Items::Nil => seq![],
        Items::Cons(m, rest) => item_tokens(m) + items_tokens(*rest),
    }
}

// ---------------------------------------------------------------------------
// Well-formedness: each token has the kind that its place in the grammar asks.

/// A kind that may stand between the brackets of an attribute.
pub open spec fn is_attr_content(k: Kind) -> bool {
    k != Kind::OpenBracket && k != Kind::CloseBracket && k != Kind::Eof
}

pub open spec fn attr_wf(a: Attribute, inner: bool) -> bool {
    &&& a.pound.kind == Kind::Pound
    &&& (a.bang is Some <==> inner)
    &&& (a.bang matches Some(b) ==> b.kind == Kind::Bang)
    &&& a.open.kind == Kind::OpenBracket
    &&& forall|i: int| 0 <= i < a.content@.len() ==> is_attr_content(#[trigger] a.content@[i].kind)
    &&& a.close.kind == Kind::CloseBracket
}

pub open spec fn attrs_wf(s: Seq<Attribute>, inner: bool) -> bool {
    forall|i: int| 0 <= i < s.len() ==> attr_wf(#[trigger] s[i], inner)
}

pub open spec fn vis_wf(v: Visibility) -> bool {
    v matches Visibility::Public(t) ==> t.kind == Kind::Pub
}

/// A module item whose every token has the kind that the grammar asks.
pub open spec fn item_wf(m: ItemMod) -> bool
    decreases m,
{
    &&& attrs_wf(m.attributes@, false)
    &&& vis_wf(m.visibility)
    &&& m.mod_token.kind == Kind::Mod
    &&& m.name.kind == Kind::Ident
    &&& body_wf(m.body)
}

pub open spec fn body_wf(b: ItemModBody) -> bool
    decreases b,
{
    match b {
        ItemModBody::EmptyBody(t) => t.kind == Kind::SemiColon,
        ItemModBody::InlineBody(i) => {
            &&& i.open.kind == Kind::OpenBrace
            &&& file_wf(*i.file)
            &&& i.close.kind == Kind::CloseBrace
        },
    }
}

pub open spec fn file_wf(f: File) -> bool
    decreases f,
{
    &&& attrs_wf(f.attributes@, true)
    &&& items_wf(f.items)
}

pub open spec fn items_wf(l: Items) -> bool
    decreases l,
{
    match l {
        Items::Nil => true,
        Items::Cons(m, rest) => item_wf(m) && items_wf(*rest),
    }
}

// ---------------------------------------------------------------------------
// Sameness of trees: equal tokens in equal places, identity tags aside.

pub open spec fn attr_same(a: Attribute, b: Attribute) -> bool {
    &&& a.pound == b.pound
    &&& a.bang == b.bang
    &&& a.open == b.open
    &&& a.content@ == b.content@
    &&& a.close == b.close
}

pub open spec fn attrs_same(s: Seq<Attribute>, t: Seq<Attribute>) -> bool {
    &&& s.len() == t.len()
    &&& forall|i: int| 0 <= i < s.len() ==> attr_same(#[trigger] s[i], t[i])
}

/// Two module items are the same tree, whatever their identity tags.
pub open spec fn item_same(m: ItemMod, n: ItemMod) -> bool
    decreases m,
{
    &&& attrs_same(m.attributes@, n.attributes@)
    &&& m.visibility == n.visibility
    &&& m.mod_token == n.mod_token
    &&& m.name == n.name
    &&& body_same(m.body, n.body)
}

pub open spec fn body_same(b: ItemModBody, c: ItemModBody) -> bool
    decreases b,
{
    match b {
        ItemModBody::EmptyBody(t) => c matches ItemModBody::EmptyBody(u) && t == u,
        ItemModBody::InlineBody(x) => c matches ItemModBody::InlineBody(y) && x.open == y.open
            && x.close == y.close && file_same(*x.file, *y.file),
    }
}

pub open spec fn file_same(f: File, g: File) -> bool
    decreases f,
{
    attrs_same(f.attributes@, g.attributes@) && items_same(f.items, g.items)
}

pub open spec fn items_same(l: Items, k: Items) -> bool
    decreases l,
{
    match l {
        Items::Nil => k is Nil,
        Items::Cons(m, rest) => k matches Items::Cons(n, tail) && item_same(m, n) && items_same(
            *rest,
            *tail,
        ),
    }
}

/// How deeply inline bodies nest inside a module item: none for an empty
/// body, one more than the deepest item inside an inline body.
pub open spec fn item_depth(m: ItemMod) -> nat
    decreases m,
{
    match m.body {
        ItemModBody::EmptyBody(_) => 0,
        ItemModBody::InlineBody(b) => 1 + items_depth(b.file.items),
    }
}

/// The deepest nesting among items.
pub open spec fn items_depth(l: Items) -> nat
    decreases l,
{
    match l {
        Items::Nil => 0,
        Items::Cons(m, rest) => {
            let d = item_depth(m);
            let e = items_depth(*rest);
            if d >= e {
                d
            } else {
                e
            }
        },
    }
}

// ---------------------------------------------------------------------------
// Copies.

fn clone_attr(a: &Attribute) -> (r: Attribute)
    ensures
        attr_same(r, *a),
{
    let mut content: Vec<Token> = Vec::new();
    let mut i: usize = 0;
    while i < a.content.len()
        invariant
            i <= a.content@.len(),
            content@ == a.content@.subrange(0, i as int),
        decreases a.content@.len() - i,
    {
        content.push(a.content[i]);
        i = i + 1;
        assert(content@ =~= a.content@.subrange(0, i as int));
    }
    assert(content@ =~= a.content@);
    Attribute { pound: a.pound, bang: a.bang, open: a.open, content, close: a.close }
}

fn clone_attrs(v: &Vec<Attribute>) -> (r: Vec<Attribute>)
    ensures
        attrs_same(r@, v@),
{
    let mut out: Vec<Attribute> = Vec::new();
    let mut i: usize = 0;
    while i < v.len()
        invariant
            i <= v@.len(),
            out@.len() == i,
            forall|j: int| 0 <= j < i ==> attr_same(#[trigger] out@[j], v@[j]),
        decreases v@.len() - i,
    {
        out.push(clone_attr(&v[i]));
        i = i + 1;
    }
    out
}

fn clone_item(m: &ItemMod) -> (r: ItemMod)
    ensures
        item_same(r, *m),
        r.id == m.id,
    decreases m,
{
    ItemMod {
        id: m.id,
        attributes: clone_attrs(&m.attributes),
        visibility: m.visibility,
        mod_token: m.mod_token,
        name: m.name,
        body: clone_body(&m.body),
    }
}

fn clone_body(b: &ItemModBody) -> (r: ItemModBody)
    ensures
        body_same(r, *b),
    decreases b,
{
    match b {
        ItemModBody::EmptyBody(t) => ItemModBody::EmptyBody(*t),
        ItemModBody::InlineBody(x) => ItemModBody::InlineBody(clone_inline(x)),
    }
}

fn clone_inline(x: &ItemInlineBody) -> (r: ItemInlineBody)
    ensures
        body_same(ItemModBody::InlineBody(r), ItemModBody::InlineBody(*x)),
    decreases x,
{
    ItemInlineBody { open: x.open, file: Box::new(clone_file(&x.file)), close: x.close }
}

fn clone_file(f: &File) -> (r: File)
    ensures
        file_same(r, *f),
    decreases f,
{
    File { attributes: clone_attrs(&f.attributes), items: clone_items(&f.items) }
}

fn clone_items(l: &Items) -> (r: Items)
    ensures
        items_same(r, *l),
    decreases l,
{
    match l {
        Items::Nil => Items::Nil,
        Items::Cons(m, rest) => Items::Cons(clone_item(m), Box::new(clone_items(rest))),
    }
}

impl Clone for ItemMod {
    fn clone(&self) -> (r: Self)
        ensures
            item_same(r, *self),
            r.id == self.id,
    {
        clone_item(self)
    }
}

impl Clone for ItemModBody {
    fn clone(&self) -> (r: Self)
        ensures
            body_same(r, *self),
    {
        clone_body(self)
    }
}

impl Clone for ItemInlineBody {
    fn clone(&self) -> (r: Self)
        ensures
            body_same(ItemModBody::InlineBody(r), ItemModBody::InlineBody(*self)),
    {
        clone_inline(self)
    }
}

impl Clone for File {
    fn clone(&self) -> (r: Self)
        ensures
            file_same(r, *self),
    {
        clone_file(self)
    }
}

impl Clone for Items {
    fn clone(&self) -> (r: Self)
        ensures
            items_same(r, *self),
    {
        clone_items(self)
    }
}

// ---------------------------------------------------------------------------
// Spans.

/// Every token span runs forward, and each token ends before any later one
/// starts.
pub open spec fn spans_ordered(s: Seq<Token>) -> bool {
    &&& forall|i: int| 0 <= i < s.len() ==> (#[trigger] s[i]).span.wf()
    &&& forall|i: int, j: int| 0 <= i < j < s.len() ==> (#[trigger] s[i]).span.end <= (
    #[trigger] s[j]).span.start
}

/// Every token span covers at least one position.
pub open spec fn spans_nonempty(s: Seq<Token>) -> bool {
    forall|i: int| 0 <= i < s.len() ==> (#[trigger] s[i]).span.start < s[i].span.end
}

/// The span from the first to the last of a non-empty token sequence.
pub open spec fn seq_span(s: Seq<Token>) -> Span {
    s[0].span.spec_join(s.last().span)
}

pub open spec fn item_span(m: ItemMod) -> Span {
    seq_span(item_tokens(m))
}

pub open spec fn body_span(b: ItemModBody) -> Span {
    seq_span(body_tokens(b))
}

/// The visibility, or else the `mod` keyword, joined with the name.
pub open spec fn name_span_of(m: ItemMod) -> Span {
    match m.visibility {
        Visibility::Public(t) => t.span.spec_join(m.name.span),
        Visibility::Inherited => m.mod_token.span.spec_join(m.name.span),
    }
}

proof fn lemma_attrs_tokens_first(s: Seq<Attribute>)
    requires
        s.len() > 0,
    ensures
        attrs_tokens(s).len() > 0,
        attrs_tokens(s)[0] == s[0].pound,
    decreases s.len(),
{
    if s.len() > 1 {
        lemma_attrs_tokens_first(s.drop_last());
        assert(s.drop_last()[0] == s[0]);
    } else {
        assert(s.drop_last().len() == 0);
        assert(attrs_tokens(s.drop_last()) =~= Seq::<Token>::empty());
        assert(attrs_tokens(s) =~= attr_tokens(s.last()));
    }
}

impl Attribute {
    /// Appends the tokens of the attribute.
    pub fn to_tokens(&self, out: &mut Vec<Token>)
        ensures
            final(out)@ == old(out)@ + attr_tokens(*self),
    {
        let ghost start = out@;
        out.push(self.pound);
        if let Some(b) = self.bang {
            out.push(b);
        }
        out.push(self.open);
        let mut i: usize = 0;
        while i < self.content.len()
            invariant
                i <= self.content@.len(),
                out@ == start + seq![self.pound] + opt_tokens(self.bang) + seq![self.open]
                    + self.content@.subrange(0, i as int),
            decreases self.content@.len() - i,
        {
            out.push(self.content[i]);
            i = i + 1;
            assert(self.content@.subrange(0, i as int) =~= self.content@.subrange(0, i - 1)
                .push(self.content@[i - 1]));
        }
        out.push(self.close);
        assert(self.content@.subrange(0, i as int) =~= self.content@);
        assert(out@ =~= start + attr_tokens(*self));
    }
}

/// Appends the tokens of a run of attributes.
fn attrs_to_tokens(attrs: &Vec<Attribute>, out: &mut Vec<Token>)
    ensures
        final(out)@ == old(out)@ + attrs_tokens(attrs@),
{
    let ghost start = out@;
    let mut i: usize = 0;
    assert(start =~= start + attrs_tokens(attrs@.subrange(0, 0)));
    while i < attrs.len()
        invariant
            i <= attrs@.len(),
            out@ == start + attrs_tokens(attrs@.subrange(0, i as int)),
        decreases attrs@.len() - i,
    {
        attrs[i].to_tokens(out);
        i = i + 1;
        assert(attrs@.subrange(0, i as int).drop_last() =~= attrs@.subrange(0, i - 1));
        assert(out@ =~= start + attrs_tokens(attrs@.subrange(0, i as int)));
    }
    assert(attrs@.subrange(0, i as int) =~= attrs@);
}

impl ItemMod {
    /// Appends the tokens of the item, in source order.
    pub fn to_tokens(&self, out: &mut Vec<Token>)
        ensures
            final(out)@ == old(out)@ + item_tokens(*self),
        decreases self,
    {
        let ghost start = out@;
        attrs_to_tokens(&self.attributes, out);
        if let Visibility::Public(t) = self.visibility {
            out.push(t);
        }
        out.push(self.mod_token);
        out.push(self.name);
        self.body.to_tokens(out);
        assert(out@ =~= start + item_tokens(*self));
    }

    /// The tokens of the item, in source order.
    pub fn token_vec(&self) -> (r: Vec<Token>)
        ensures
            r@ == item_tokens(*self),
    {
        let mut out: Vec<Token> = Vec::new();
        self.to_tokens(&mut out);
        assert(out@ =~= item_tokens(*self));
        out
    }

    /// The span of the whole item, from its first token to its last.
    pub fn span(&self) -> (r: Span)
        ensures
            r == item_span(*self),
    {
        proof {
            if self.attributes@.len() > 0 {
                lemma_attrs_tokens_first(self.attributes@);
            }
        }
        let first = if self.attributes.len() > 0 {
            self.attributes[0].pound.span
        } else {
            match self.visibility {
                Visibility::Public(t) => t.span,
                Visibility::Inherited => self.mod_token.span,
            }
        };
        let last = match &self.body {
            ItemModBody::EmptyBody(t) => t.span,
            ItemModBody::InlineBody(b) => b.close.span,
        };
        first.join(last)
    }

    /// The span of the module's name together with what precedes it: the
    /// visibility if there is one, else the `mod` keyword.
    pub fn name_span(&self) -> (r: Span)
        ensures
            r == name_span_of(*self),
    {
        if let Visibility::Public(t) = self.visibility {
            t.span.join(self.name.span)
        } else {
            self.mod_token.span.join(self.name.span)
        }
    }
}

impl ItemModBody {
    /// Appends the tokens of the body, in source order.
    pub fn to_tokens(&self, out: &mut Vec<Token>)
        ensures
            final(out)@ == old(out)@ + body_tokens(*self),
        decreases self,
    {
        let ghost start = out@;
        match self {
            ItemModBody::EmptyBody(t) => {
                out.push(*t);
            },
            ItemModBody::InlineBody(b) => {
                out.push(b.open);
                b.file.to_tokens(out);
                out.push(b.close);
            },
        }
        assert(out@ =~= start + body_tokens(*self));
    }

    /// The span of the body, from its first token to its last.
    pub fn span(&self) -> (r: Span)
        ensures
            r == body_span(*self),
    {
        match self {
            ItemModBody::EmptyBody(t) => t.span.join(t.span),
            ItemModBody::InlineBody(b) => b.open.span.join(b.close.span),
        }
    }
}

impl File {
    /// Appends the tokens of the file, in source order.
    pub fn to_tokens(&self, out: &mut Vec<Token>)
        ensures
            final(out)@ == old(out)@ + file_tokens(*self),
        decreases self,
    {
        let ghost start = out@;
        attrs_to_tokens(&self.attributes, out);
        self.items.to_tokens(out);
        assert(out@ =~= start + file_tokens(*self));
    }
}

impl Items {
    /// Appends the tokens of the items, in source order.
    pub fn to_tokens(&self, out: &mut Vec<Token>)
        ensures
            final(out)@ == old(out)@ + items_tokens(*self),
        decreases self,
    {
        let ghost start = out@;
        match self {
            Items::Nil => {
                assert(out@ =~= start + items_tokens(*self));
            },
            Items::Cons(m, rest) => {
                m.to_tokens(out);
                rest.to_tokens(out);
                assert(out@ =~= start + items_tokens(*self));
            },
        }
    }
}

// ---------------------------------------------------------------------------
// Laws.

/// Where the token spans of an item run in source order (as a lexer hands
/// them over, and as a parse keeps them), its name span lies within the
/// item's span and ends before its body's span starts; where no token span
/// is empty, the name span also starts strictly before the body's. Outer
/// attributes end before the name span starts.
pub proof fn lemma_name_span_contained(m: ItemMod)
    requires
        spans_ordered(item_tokens(m)),
    ensures
        item_span(m).contains(name_span_of(m)),
        name_span_of(m).precedes(body_span(m.body)),
        spans_nonempty(item_tokens(m)) ==> name_span_of(m).start < body_span(m.body).start,
        m.attributes@.len() > 0 ==> attrs_tokens(m.attributes@).last().span.end <= name_span_of(
            m,
        ).start,
{
    let s = item_tokens(m);
    let a = attrs_tokens(m.attributes@);
    let v = vis_tokens(m.visibility);
    let b = body_tokens(m.body);
    let k: int = (a.len() + v.len()) as int;
    assert(s == a + v + seq![m.mod_token, m.name] + b);
    assert(b.len() >= 1);
    assert(s[k] == m.mod_token);
    assert(s[k + 1] == m.name);
    assert(b[0] == s[k + 2]);
    assert(b.last() == s.last());
    let first = if m.visibility is Public {
        k - 1
    } else {
        k
    };
    assert(name_span_of(m) == s[first].span.spec_join(s[k + 1].span));
    assert(s[0].span.wf() && s[first].span.wf() && s[k + 1].span.wf() && s[k + 2].span.wf());
    assert(s.last().span.wf());
    if 0 < first {
        assert(s[0].span.end <= s[first].span.start);
    }
    assert(s[first].span.end <= s[k + 1].span.start);
    assert(s[k + 1].span.end <= s[k + 2].span.start);
    if k + 2 < s.len() - 1 {
        assert(s[k + 2].span.end <= s.last().span.start);
    }
    if spans_nonempty(s) {
        assert(s[k + 1].span.start < s[k + 1].span.end);
    }
    if m.attributes@.len() > 0 {
        lemma_attrs_tokens_first(m.attributes@);
        assert(s[a.len() - 1] == a.last());
        assert(s[a.len() - 1].span.end <= s[first].span.start);
    }
}

/// In a well-formed item, the attribute list holds outer attributes only, and
/// the file of an inline body holds inner attributes only: attributes written
/// inside the body never join the item's list, nor the item's attributes the
/// body's.
pub proof fn lemma_meta_isolation(m: ItemMod)
    requires
        item_wf(m),
    ensures
        forall|i: int| 0 <= i < m.attributes@.len() ==> (#[trigger] m.attributes@[i]).bang is None,
        m.body matches ItemModBody::InlineBody(b) ==> forall|j: int|
            0 <= j < b.file.attributes@.len() ==> (#[trigger] b.file.attributes@[j]).bang is Some,
{
    assert forall|i: int| 0 <= i < m.attributes@.len() implies (
    #[trigger] m.attributes@[i]).bang is None by {
        assert(attr_wf(m.attributes@[i], false));
    }
    if let ItemModBody::InlineBody(b) = m.body {
        assert(file_wf(*b.file));
        assert forall|j: int| 0 <= j < b.file.attributes@.len() implies (
        #[trigger] b.file.attributes@[j]).bang is Some by {
            assert(attr_wf(b.file.attributes@[j], true));
        }
    }
}

/// Two trees that are the same nest equally deep, at every depth: the tree
/// that parsing returns for the tokens of an item keeps the item's nesting.
pub proof fn lemma_same_depth(m: ItemMod, n: ItemMod)
    requires
        item_same(m, n),
    ensures
        item_depth(m) == item_depth(n),
    decreases m,
{
    if let ItemModBody::InlineBody(b) = m.body {
        if let ItemModBody::InlineBody(c) = n.body {
            lemma_same_items_depth(b.file.items, c.file.items);
        }
    }
}

proof fn lemma_same_items_depth(l: Items, k: Items)
    requires
        items_same(l, k),
    ensures
        items_depth(l) == items_depth(k),
    decreases l,
{
    if let Items::Cons(m, rest) = l {
        if let Items::Cons(n, tail) = k {
            lemma_same_depth(m, n);
            lemma_same_items_depth(*rest, *tail);
        }
    }
}

/// `mod a { mod b { ... mod z {} ... } }`: an item without attributes or
/// visibility whose inline body holds no attributes and, below `n` more
/// levels, exactly one such item; the innermost body holds no items.
pub open spec fn nested_chain(m: ItemMod, n: nat) -> bool
    decreases n,
{
    &&& m.attributes@.len() == 0
    &&& m.visibility == Visibility::Inherited
    &&& match m.body {
        ItemModBody::EmptyBody(_) => false,
        ItemModBody::InlineBody(b) => {
            &&& b.file.attributes@.len() == 0
            &&& if n == 0 {
                b.file.items is Nil
            } else {
                b.file.items matches Items::Cons(inner, rest) && *rest is Nil && nested_chain(
                    inner,
                    (n - 1) as nat,
                )
            }
        },
    }
}

/// A chain of nested modules is as deep as its levels.
pub proof fn lemma_chain_depth(m: ItemMod, n: nat)
    requires
        nested_chain(m, n),
    ensures
        item_depth(m) == n + 1,
    decreases n,
{
    if let ItemModBody::InlineBody(b) = m.body {
        if let Items::Cons(inner, rest) = b.file.items {
            lemma_chain_depth(inner, (n - 1) as nat);
            assert(items_depth(*rest) == 0);
        }
    }
}

/// Nesting survives parsing at any depth: where `m` is a chain of `n + 1`
/// nested modules and `r` is the same tree (as `parse_item_mod` returns for
/// the tokens of any well-formed item), `r` is that chain too, with the same
/// tokens at each level, and nests `n + 1` deep.
pub proof fn lemma_nesting_survives_parse(m: ItemMod, r: ItemMod, n: nat)
    requires
        nested_chain(m, n),
        item_same(r, m),
    ensures
        nested_chain(r, n),
        item_depth(r) == n + 1,
    decreases n,
{
    if let ItemModBody::InlineBody(b) = m.body {
        if let ItemModBody::InlineBody(c) = r.body {
            assert(file_same(*c.file, *b.file));
            if let Items::Cons(inner, rest) = b.file.items {
                if let Items::Cons(rinner, rrest) = c.file.items {
                    lemma_nesting_survives_parse(inner, rinner, (n - 1) as nat);
                }
            }
        }
    }
    lemma_chain_depth(r, n);
}

} // verus!
