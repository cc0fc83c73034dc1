use vstd::prelude::*;
use crate::selector::{parse_selector_list, SelectorList};
use crate::selector_grammar::{complex_views, failures, parts_from, successes, ComplexView};
use crate::subsequence::{
    embeds, lemma_embeds_concat, lemma_embeds_empty, lemma_embeds_extend, lemma_embeds_single,
    lemma_embeds_trans,
};
use crate::token::{Token, TokenKind};
use crate::types::LexerSpan;
pub use crate::printer::AstPrinter;
pub use crate::visitor::{
    walk_at_rule, walk_component_value, walk_declaration, walk_function, walk_qualified_rule,
    walk_rule, walk_simple_block, walk_stylesheet, walk_style_block, walk_style_block_item,
    Visitor,
};

verus! {

/// The parts of a token that the syntax tree keeps.
#[derive(Debug, Clone, Copy, PartialEq, Eq, Structural)]
pub struct TokenData {
    pub kind: TokenKind,
    pub line: usize,
    pub span: LexerSpan,
}

/// The data of a token.
pub open spec fn token_data(token: Token) -> TokenData {
    TokenData { kind: token.kind, line: token.line, span: token.span }
}

impl<'t> From<&'t Token> for TokenData {
    fn from(token: &'t Token) -> (data: Self) {
        Self { kind: token.kind, line: token.line, span: token.span }
    }
}

impl<'t> vstd::std_specs::convert::FromSpecImpl<&'t Token> for TokenData {
    open spec fn obeys_from_spec() -> bool {
        true
    }

    open spec fn from_spec(token: &'t Token) -> Self {
        token_data(*token)
    }
}

#[derive(Debug, Clone, PartialEq, Eq)]
pub struct Stylesheet {
    pub rule_list: Vec<Rule>,
}

#[allow(non_camel_case_types)]
#[derive(Debug, Clone, PartialEq, Eq)]
pub enum Rule {
    AT_RULE(AtRule),
    QUALIFIED_RULE(QualifiedRule),
}

#[derive(Debug, Clone, PartialEq, Eq)]
pub struct AtRule {
    pub name: TokenData,
    pub prelude: Vec<ComponentValue>,
    pub block: Option<SimpleBlock>,
}

#[derive(Debug, Clone, PartialEq, Eq)]
pub struct QualifiedRule {
    pub prelude: Vec<ComponentValue>,
    pub selectors: SelectorList,
    pub block: Option<StyleBlock>,
}

#[derive(Debug, Clone, PartialEq, Eq)]
pub struct Declaration {
    pub name: TokenData,
    pub value: Vec<ComponentValue>,
    pub important: bool,
}

#[derive(Debug, Clone, PartialEq, Eq)]
pub struct StyleBlock {
    pub opening: TokenData,
    pub items: Vec<StyleBlockItem>,
    pub closing: Option<TokenData>,
}

#[allow(non_camel_case_types)]
#[derive(Debug, Clone, PartialEq, Eq)]
pub enum StyleBlockItem {
    DECLARATION(Declaration),
    AT_RULE(AtRule),
}

#[allow(non_camel_case_types)]
#[derive(Debug, PartialEq, Eq)]
pub enum ComponentValue {
    PRESERVED(TokenData),
    SIMPLE_BLOCK(SimpleBlock),
    FUNCTION(Function),
}

#[derive(Debug, PartialEq, Eq)]
pub struct SimpleBlock {
    pub opening: TokenData,
    pub values: Vec<ComponentValue>,
    pub closing: Option<TokenData>,
}

#[derive(Debug, PartialEq, Eq)]
pub struct Function {
    pub name: TokenData,
    pub values: Vec<ComponentValue>,
    pub closing: Option<TokenData>,
}

/// The mathematical shape of a component value: what it holds, without the vectors.
pub enum ValueTree {
    Token(TokenData),
    Block(TokenData, Seq<ValueTree>, Option<TokenData>),
    Call(TokenData, Seq<ValueTree>, Option<TokenData>),
}

pub open spec fn cv_model(cv: ComponentValue) -> ValueTree
    decreases cv,
{
    match cv {
        ComponentValue::PRESERVED(t) => ValueTree::Token(t),
        ComponentValue::SIMPLE_BLOCK(b) => ValueTree::Block(b.opening, cvs_model(b.values@), b.closing),
        ComponentValue::FUNCTION(f) => ValueTree::Call(f.name, cvs_model(f.values@), f.closing),
    }
}

pub open spec fn cvs_model(s: Seq<ComponentValue>) -> Seq<ValueTree>
    decreases s,
{
    if s.len() == 0 {
        seq![]
    } else {
        cvs_model(s.drop_last()).push(cv_model(s.last()))
    }
}

/// The kind that closes a function or a block that opens with a token of `kind`.
pub open spec fn nest_close(kind: TokenKind) -> TokenKind {
    if kind == TokenKind::FUNCTION {
        TokenKind::PAREN_CLOSE
    } else {
        closer_of(kind)->0
    }
}

/// Whether a token of `kind` opens a function or a block.
pub open spec fn opens_nest(kind: TokenKind) -> bool {
    kind == TokenKind::FUNCTION || closer_of(kind) is Some
}

/// The inside of a function or a block whose first token is at `i` and that closes with
/// `close`: its values, its closing token (none where `EOF` comes first), and the index just
/// past it.
pub open spec fn nest_at(d: Seq<TokenData>, i: int, close: TokenKind) -> (
    Seq<ValueTree>,
    Option<TokenData>,
    int,
)
    decreases d.len() - i, 0int,
{
    if 0 <= i < d.len() {
        let inner = values_until(d, i + 1, set![close]);
        if 0 <= inner.1 < d.len() && d[inner.1].kind == close {
            (inner.0, Some(d[inner.1]), inner.1 + 1)
        } else {
            (inner.0, None, inner.1)
        }
    } else {
        (seq![], None, i)
    }
}

/// The component value that starts at index `i` of `d`, and the index just past it: a
/// function or a block runs to its closing token or to `EOF`; any other token stands alone.
pub open spec fn value_at(d: Seq<TokenData>, i: int) -> (ValueTree, int)
    decreases d.len() - i, 1int,
{
    if 0 <= i < d.len() && opens_nest(d[i].kind) {
        let n = nest_at(d, i, nest_close(d[i].kind));
        (
            if d[i].kind == TokenKind::FUNCTION {
                ValueTree::Call(d[i], n.0, n.1)
            } else {
                ValueTree::Block(d[i], n.0, n.1)
            },
            n.2,
        )
    } else {
        (ValueTree::Token(d[i]), i + 1)
    }
}

/// The component values from index `i` on, up to the first token of a kind in `stops`, or
/// `EOF`, that no value holds, and that token's index.
pub open spec fn values_until(d: Seq<TokenData>, i: int, stops: Set<TokenKind>) -> (
    Seq<ValueTree>,
    int,
)
    decreases d.len() - i, 2int,
{
    if i < 0 || i >= d.len() || stops.contains(d[i].kind) || d[i].kind == TokenKind::EOF {
        (seq![], i)
    } else {
        let first = value_at(d, i);
        if i < first.1 <= d.len() {
            let rest = values_until(d, first.1, stops);
            (seq![first.0] + rest.0, rest.1)
        } else {
            (seq![first.0], first.1)
        }
    }
}

/// The index of the first token from `i` on that is not whitespace.
pub open spec fn skip_whitespace(d: Seq<TokenData>, i: int) -> int
    decreases d.len() - i,
{
    if 0 <= i < d.len() && d[i].kind == TokenKind::WHITESPACE {
        skip_whitespace(d, i + 1)
    } else {
        i
    }
}

/// The index of the first token from `i` on whose kind is one of `kinds`.
pub open spec fn first_of(d: Seq<TokenData>, i: int, kinds: Seq<TokenKind>) -> int
    decreases d.len() - i,
{
    if 0 <= i < d.len() && !kinds.contains(d[i].kind) {
        first_of(d, i + 1, kinds)
    } else {
        i
    }
}

/// Past the token at `k` where it is a `;`.
pub open spec fn past_semicolon(d: Seq<TokenData>, k: int) -> int {
    if 0 <= k < d.len() && d[k].kind == TokenKind::SEMICOLON {
        k + 1
    } else {
        k
    }
}

pub open spec fn is_whitespace_tree(v: ValueTree) -> bool {
    v matches ValueTree::Token(t) && t.kind == TokenKind::WHITESPACE
}

pub open spec fn is_important_tree(v: ValueTree) -> bool {
    v matches ValueTree::Token(t) && t.kind == TokenKind::IMPORTANT_TOKEN
}

/// `v` without its trailing whitespace.
pub open spec fn trim_whitespace(v: Seq<ValueTree>) -> Seq<ValueTree>
    decreases v.len(),
{
    if v.len() > 0 && is_whitespace_tree(v.last()) {
        trim_whitespace(v.drop_last())
    } else {
        v
    }
}

/// The value of a declaration whose values after the colon are `raw`, and whether it is
/// important: where the last value that is not whitespace is `!important`, the value is what
/// comes before it, without trailing whitespace; otherwise it is `raw` as it stands.
pub open spec fn declaration_value(raw: Seq<ValueTree>) -> (Seq<ValueTree>, bool) {
    let t = trim_whitespace(raw);
    if t.len() > 0 && is_important_tree(t.last()) {
        (trim_whitespace(t.drop_last()), true)
    } else {
        (raw, false)
    }
}

/// What a declaration's values stop at.
pub open spec fn declaration_stops() -> Set<TokenKind> {
    set![TokenKind::SEMICOLON, TokenKind::CURLY_CLOSE]
}

/// The declaration whose name is at `i`: after the name and any whitespace comes a colon,
/// then its values up to a `;`, `}` or `EOF`, and a `;` ends it. Its name, value and
/// importance, or none where no colon follows, when the parser skips to the next `;`, `}` or
/// `EOF` and past a `;`; and the index after it.
pub open spec fn declaration_at(d: Seq<TokenData>, i: int) -> (
    Option<(TokenData, Seq<ValueTree>, bool)>,
    int,
) {
    let w = skip_whitespace(d, i + 1);
    if 0 <= w < d.len() && d[w].kind == TokenKind::COLON {
        let raw = values_until(d, w + 1, declaration_stops());
        let v = declaration_value(raw.0);
        (Some((d[i], v.0, v.1)), past_semicolon(d, raw.1))
    } else {
        (
            None,
            past_semicolon(
                d,
                first_of(d, w, seq![TokenKind::SEMICOLON, TokenKind::EOF, TokenKind::CURLY_CLOSE]),
            ),
        )
    }
}

pub proof fn lemma_nest_at(d: Seq<TokenData>, i: int, close: TokenKind)
    requires
        0 <= i < d.len(),
    ensures
        i < nest_at(d, i, close).2 <= d.len(),
    decreases d.len() - i, 0int,
{
    lemma_values_until(d, i + 1, set![close]);
}

/// A component value ends after it starts, and within the input.
pub proof fn lemma_value_at(d: Seq<TokenData>, i: int)
    requires
        0 <= i < d.len(),
    ensures
        i < value_at(d, i).1 <= d.len(),
    decreases d.len() - i, 1int,
{
    if opens_nest(d[i].kind) {
        lemma_nest_at(d, i, nest_close(d[i].kind));
    }
}

pub proof fn lemma_values_until(d: Seq<TokenData>, i: int, stops: Set<TokenKind>)
    requires
        0 <= i <= d.len(),
    ensures
        i <= values_until(d, i, stops).1 <= d.len(),
    decreases d.len() - i, 2int,
{
    if !(i >= d.len() || stops.contains(d[i].kind) || d[i].kind == TokenKind::EOF) {
        lemma_value_at(d, i);
        lemma_values_until(d, value_at(d, i).1, stops);
    }
}

pub proof fn lemma_skip_whitespace(d: Seq<TokenData>, i: int)
    requires
        0 <= i <= d.len(),
    ensures
        i <= skip_whitespace(d, i) <= d.len(),
    decreases d.len() - i,
{
    if i < d.len() && d[i].kind == TokenKind::WHITESPACE {
        lemma_skip_whitespace(d, i + 1);
    }
}

pub proof fn lemma_first_of(d: Seq<TokenData>, i: int, kinds: Seq<TokenKind>)
    requires
        0 <= i <= d.len(),
    ensures
        i <= first_of(d, i, kinds) <= d.len(),
        first_of(d, i, kinds) < d.len() ==> kinds.contains(d[first_of(d, i, kinds)].kind),
    decreases d.len() - i,
{
    if i < d.len() && !kinds.contains(d[i].kind) {
        lemma_first_of(d, i + 1, kinds);
    }
}

/// A declaration ends after its name, and within the input.
pub proof fn lemma_declaration_at(d: Seq<TokenData>, i: int)
    requires
        0 <= i < d.len(),
    ensures
        i < declaration_at(d, i).1 <= d.len(),
{
    lemma_skip_whitespace(d, i + 1);
    let w = skip_whitespace(d, i + 1);
    if 0 <= w < d.len() && d[w].kind == TokenKind::COLON {
        lemma_values_until(d, w + 1, declaration_stops());
    } else {
        lemma_first_of(d, w, seq![TokenKind::SEMICOLON, TokenKind::EOF, TokenKind::CURLY_CLOSE]);
    }
}

/// The shape of an at-rule: its keyword, its prelude and its block.
pub open spec fn at_rule_shape(r: AtRule) -> (TokenData, Seq<ValueTree>, Option<ValueTree>) {
    (
        r.name,
        cvs_model(r.prelude@),
        match r.block {
            Some(b) => Some(cv_model(ComponentValue::SIMPLE_BLOCK(b))),
            None => None,
        },
    )
}

/// What an at-rule's prelude stops at, besides `EOF`.
pub open spec fn at_rule_stops() -> Set<TokenKind> {
    set![TokenKind::SEMICOLON, TokenKind::CURLY_OPEN]
}

/// The at-rule whose keyword is at `i`: its prelude of values up to a `;`, a `{` or `EOF`,
/// and the block that a `{` opens (a `;` ends the rule and is passed); and the index after it.
pub open spec fn at_rule_at(d: Seq<TokenData>, i: int) -> (
    (TokenData, Seq<ValueTree>, Option<ValueTree>),
    int,
) {
    let pre = values_until(d, i + 1, at_rule_stops());
    let k = pre.1;
    if 0 <= k < d.len() && d[k].kind == TokenKind::CURLY_OPEN {
        let b = value_at(d, k);
        ((d[i], pre.0, Some(b.0)), b.1)
    } else {
        ((d[i], pre.0, None), past_semicolon(d, k))
    }
}

/// An at-rule ends after its keyword, and within the input.
pub proof fn lemma_at_rule_at(d: Seq<TokenData>, i: int)
    requires
        0 <= i < d.len(),
    ensures
        i < at_rule_at(d, i).1 <= d.len(),
{
    lemma_values_until(d, i + 1, at_rule_stops());
    let k = values_until(d, i + 1, at_rule_stops()).1;
    if 0 <= k < d.len() && d[k].kind == TokenKind::CURLY_OPEN {
        lemma_value_at(d, k);
    }
}

/// The error that the parser records at the token at index `k`.
pub open spec fn parse_error_at(d: Seq<TokenData>, k: int, reason: ParseErrorReason) -> ParseError {
    ParseError { reason, line: d[k].line, span: d[k].span }
}

/// Whether a token of `kind` closes a block.
pub open spec fn is_closer(kind: TokenKind) -> bool {
    kind == TokenKind::CURLY_CLOSE || kind == TokenKind::BRACKET_CLOSE || kind
        == TokenKind::PAREN_CLOSE
}

/// The errors that the parser records inside a function or a block whose first token is at
/// `i`: those of its values; where `EOF` comes before its closing token and its values
/// recorded none, one unexpected end at the `EOF`.
pub open spec fn nest_errors(d: Seq<TokenData>, i: int, close: TokenKind) -> Seq<ParseError>
    decreases d.len() - i, 0int,
{
    if 0 <= i < d.len() {
        let inner = values_until(d, i + 1, set![close]);
        let errors = values_errors(d, i + 1, set![close]);
        if (0 <= inner.1 < d.len() && d[inner.1].kind == close) || errors.len() > 0 {
            errors
        } else {
            seq![parse_error_at(d, inner.1, ParseErrorReason::UNEXPECTED_EOF)]
        }
    } else {
        seq![]
    }
}

/// The errors that the parser records for the component value at `i`: those inside a
/// function or a block, and one unexpected token for a closing token that nothing opened.
pub open spec fn value_errors(d: Seq<TokenData>, i: int) -> Seq<ParseError>
    decreases d.len() - i, 1int,
{
    if 0 <= i < d.len() && opens_nest(d[i].kind) {
        nest_errors(d, i, nest_close(d[i].kind))
    } else if 0 <= i < d.len() && is_closer(d[i].kind) {
        seq![parse_error_at(d, i, ParseErrorReason::UNEXPECTED_TOKEN)]
    } else {
        seq![]
    }
}

/// The errors that the parser records for the values of `values_until(d, i, stops)`, in order.
pub open spec fn values_errors(d: Seq<TokenData>, i: int, stops: Set<TokenKind>) -> Seq<ParseError>
    decreases d.len() - i, 2int,
{
    if i < 0 || i >= d.len() || stops.contains(d[i].kind) || d[i].kind == TokenKind::EOF {
        seq![]
    } else {
        let first = value_at(d, i);
        if i < first.1 <= d.len() {
            value_errors(d, i) + values_errors(d, first.1, stops)
        } else {
            value_errors(d, i)
        }
    }
}

/// The errors of the declaration whose name is at `i`: those of its values, or one
/// unexpected token where no colon follows the name.
pub open spec fn declaration_errors(d: Seq<TokenData>, i: int) -> Seq<ParseError> {
    let w = skip_whitespace(d, i + 1);
    if 0 <= w < d.len() && d[w].kind == TokenKind::COLON {
        values_errors(d, w + 1, declaration_stops())
    } else {
        seq![parse_error_at(d, w, ParseErrorReason::UNEXPECTED_TOKEN)]
    }
}

/// The errors of the at-rule whose keyword is at `i`: those of its prelude and its block.
pub open spec fn at_rule_errors(d: Seq<TokenData>, i: int) -> Seq<ParseError> {
    let pre = values_until(d, i + 1, at_rule_stops());
    let errors = values_errors(d, i + 1, at_rule_stops());
    if 0 <= pre.1 < d.len() && d[pre.1].kind == TokenKind::CURLY_OPEN {
        errors + value_errors(d, pre.1)
    } else {
        errors
    }
}

/// The shape of an item of a style block.
pub enum ItemTree {
    Declaration(TokenData, Seq<ValueTree>, bool),
    AtRule((TokenData, Seq<ValueTree>, Option<ValueTree>)),
}

pub open spec fn item_shape(item: StyleBlockItem) -> ItemTree {
    match item {
        StyleBlockItem::DECLARATION(d) => ItemTree::Declaration(
            d.name,
            cvs_model(d.value@),
            d.important,
        ),
        StyleBlockItem::AT_RULE(r) => ItemTree::AtRule(at_rule_shape(r)),
    }
}

pub open spec fn items_shape(items: Seq<StyleBlockItem>) -> Seq<ItemTree> {
    items.map_values(|item: StyleBlockItem| item_shape(item))
}

/// The shape of a style block: its `{`, its items and its `}`.
pub open spec fn style_block_shape(b: StyleBlock) -> (TokenData, Seq<ItemTree>, Option<TokenData>) {
    (b.opening, items_shape(b.items@), b.closing)
}

/// The index of the first token from `i` on that is neither whitespace nor `;`.
pub open spec fn skip_whitespace_and_semicolons(d: Seq<TokenData>, i: int) -> int
    decreases d.len() - i,
{
    if 0 <= i < d.len() && (d[i].kind == TokenKind::WHITESPACE || d[i].kind
        == TokenKind::SEMICOLON) {
        skip_whitespace_and_semicolons(d, i + 1)
    } else {
        i
    }
}

pub proof fn lemma_skip_whitespace_and_semicolons(d: Seq<TokenData>, i: int)
    requires
        0 <= i <= d.len(),
    ensures
        i <= skip_whitespace_and_semicolons(d, i) <= d.len(),
        skip_whitespace_and_semicolons(d, i) < d.len() ==> ({
            let k = d[skip_whitespace_and_semicolons(d, i)].kind;
            k != TokenKind::WHITESPACE && k != TokenKind::SEMICOLON
        }),
    decreases d.len() - i,
{
    if i < d.len() && (d[i].kind == TokenKind::WHITESPACE || d[i].kind == TokenKind::SEMICOLON) {
        lemma_skip_whitespace_and_semicolons(d, i + 1);
    }
}

/// The item of a style block that starts at `j`, if any, and the index after it: an at-rule;
/// a declaration, or none where it has no colon; for any other token none, as the parser
/// skips to the next `;`, `}` or `EOF` and past a `;`.
pub open spec fn item_at(d: Seq<TokenData>, j: int) -> (Option<ItemTree>, int) {
    if d[j].kind == TokenKind::AT_KEYWORD {
        let r = at_rule_at(d, j);
        (Some(ItemTree::AtRule(r.0)), r.1)
    } else if d[j].kind == TokenKind::IDENT {
        let dec = declaration_at(d, j);
        (
            match dec.0 {
                Some(x) => Some(ItemTree::Declaration(x.0, x.1, x.2)),
                None => None,
            },
            dec.1,
        )
    } else {
        (
            None,
            past_semicolon(
                d,
                first_of(d, j, seq![TokenKind::SEMICOLON, TokenKind::CURLY_CLOSE, TokenKind::EOF]),
            ),
        )
    }
}

/// An item that starts on a token other than `;`, `}` and `EOF` ends after it.
pub proof fn lemma_item_at(d: Seq<TokenData>, j: int)
    requires
        0 <= j < d.len(),
        d[j].kind != TokenKind::SEMICOLON,
        d[j].kind != TokenKind::CURLY_CLOSE,
        d[j].kind != TokenKind::EOF,
    ensures
        j < item_at(d, j).1 <= d.len(),
{
    let kinds = seq![TokenKind::SEMICOLON, TokenKind::CURLY_CLOSE, TokenKind::EOF];
    if d[j].kind == TokenKind::AT_KEYWORD {
        lemma_at_rule_at(d, j);
    } else if d[j].kind == TokenKind::IDENT {
        lemma_declaration_at(d, j);
    } else {
        if kinds.contains(d[j].kind) {
            let k = choose|k: int| 0 <= k < kinds.len() && kinds[k] == d[j].kind;
            assert(false);
        }
        lemma_first_of(d, j + 1, kinds);
    }
}

/// The items of a style block from `i` on, up to its `}` or `EOF`, and that token's index:
/// whitespace and `;` between items are skipped.
pub open spec fn items_from(d: Seq<TokenData>, i: int) -> (Seq<ItemTree>, int)
    decreases d.len() - i,
{
    let j = skip_whitespace_and_semicolons(d, i);
    if i < 0 || j >= d.len() || d[j].kind == TokenKind::CURLY_CLOSE || d[j].kind
        == TokenKind::EOF {
        (seq![], j)
    } else {
        proof {
            lemma_skip_whitespace_and_semicolons(d, i);
            lemma_item_at(d, j);
        }
        let item = item_at(d, j);
        let rest = items_from(d, item.1);
        (
            match item.0 {
                Some(x) => seq![x] + rest.0,
                None => rest.0,
            },
            rest.1,
        )
    }
}

/// The style block whose `{` is at `i`: its items, and its `}` unless `EOF` comes first; and
/// the index after it.
pub open spec fn style_block_at(d: Seq<TokenData>, i: int) -> (
    (TokenData, Seq<ItemTree>, Option<TokenData>),
    int,
) {
    let items = items_from(d, i + 1);
    let k = items.1;
    if 0 <= k < d.len() && d[k].kind == TokenKind::CURLY_CLOSE {
        ((d[i], items.0, Some(d[k])), k + 1)
    } else {
        ((d[i], items.0, None), k)
    }
}

/// One more item of a style block.
pub proof fn lemma_items_step(
    d: Seq<TokenData>,
    m0: int,
    done: Seq<StyleBlockItem>,
    after: Seq<StyleBlockItem>,
    next: int,
)
    requires
        0 <= m0 <= d.len(),
        ({
            let j = skip_whitespace_and_semicolons(d, m0);
            &&& j < d.len()
            &&& d[j].kind != TokenKind::CURLY_CLOSE
            &&& d[j].kind != TokenKind::EOF
            &&& next == item_at(d, j).1
            &&& match item_at(d, j).0 {
                Some(x) => after.len() == done.len() + 1 && after.drop_last() == done && item_shape(
                    after.last(),
                ) == x,
                None => after == done,
            }
        }),
    ensures
        items_shape(after) + items_from(d, next).0 == items_shape(done) + items_from(d, m0).0,
        items_from(d, next).1 == items_from(d, m0).1,
{
    let j = skip_whitespace_and_semicolons(d, m0);
    lemma_skip_whitespace_and_semicolons(d, m0);
    let rest = items_from(d, next);
    if let Some(x) = item_at(d, j).0 {
        assert(after == done.push(after.last()));
        assert(items_shape(after) =~= items_shape(done).push(x));
        assert(items_shape(done).push(x) + rest.0 =~= items_shape(done) + (seq![x] + rest.0));
    }
}

pub proof fn lemma_items_from(d: Seq<TokenData>, i: int)
    requires
        0 <= i <= d.len(),
    ensures
        i <= items_from(d, i).1 <= d.len(),
    decreases d.len() - i,
{
    lemma_skip_whitespace_and_semicolons(d, i);
    let j = skip_whitespace_and_semicolons(d, i);
    if !(j >= d.len() || d[j].kind == TokenKind::CURLY_CLOSE || d[j].kind == TokenKind::EOF) {
        lemma_item_at(d, j);
        lemma_items_from(d, item_at(d, j).1);
    }
}

/// The errors of the style block item at `j`: those of an at-rule or a declaration, or one
/// unexpected token for anything else.
pub open spec fn item_errors(d: Seq<TokenData>, j: int) -> Seq<ParseError> {
    if d[j].kind == TokenKind::AT_KEYWORD {
        at_rule_errors(d, j)
    } else if d[j].kind == TokenKind::IDENT {
        declaration_errors(d, j)
    } else {
        seq![parse_error_at(d, j, ParseErrorReason::UNEXPECTED_TOKEN)]
    }
}

/// The errors of the items of `items_from(d, i)`, in order.
pub open spec fn items_errors(d: Seq<TokenData>, i: int) -> Seq<ParseError>
    decreases d.len() - i,
{
    let j = skip_whitespace_and_semicolons(d, i);
    if i < 0 || j >= d.len() || d[j].kind == TokenKind::CURLY_CLOSE || d[j].kind
        == TokenKind::EOF {
        seq![]
    } else {
        proof {
            lemma_skip_whitespace_and_semicolons(d, i);
            lemma_item_at(d, j);
        }
        item_errors(d, j) + items_errors(d, item_at(d, j).1)
    }
}

/// The errors of the style block whose `{` is at `i`: those of its items; where `EOF` comes
/// before its `}` and they recorded none, one unexpected end at the `EOF`.
pub open spec fn style_block_errors(d: Seq<TokenData>, i: int) -> Seq<ParseError> {
    let items = items_from(d, i + 1);
    let errors = items_errors(d, i + 1);
    if (0 <= items.1 < d.len() && d[items.1].kind == TokenKind::CURLY_CLOSE) || errors.len() > 0 {
        errors
    } else {
        seq![parse_error_at(d, items.1, ParseErrorReason::UNEXPECTED_EOF)]
    }
}

/// The errors of the declarations of `declarations_from(d, i)`, in order, with one
/// unexpected token for each token that starts no declaration.
pub open spec fn declarations_errors(d: Seq<TokenData>, i: int) -> Seq<ParseError>
    decreases d.len() - i,
{
    let j = skip_whitespace_and_semicolons(d, i);
    if i < 0 || j >= d.len() || d[j].kind == TokenKind::CURLY_CLOSE || d[j].kind
        == TokenKind::EOF {
        seq![]
    } else if d[j].kind == TokenKind::IDENT {
        proof {
            lemma_skip_whitespace_and_semicolons(d, i);
            lemma_declaration_at(d, j);
        }
        declaration_errors(d, j) + declarations_errors(d, declaration_at(d, j).1)
    } else {
        let kinds = seq![TokenKind::SEMICOLON, TokenKind::EOF, TokenKind::CURLY_CLOSE];
        proof {
            lemma_skip_whitespace_and_semicolons(d, i);
            if kinds.contains(d[j].kind) {
                let k = choose|k: int| 0 <= k < kinds.len() && kinds[k] == d[j].kind;
            }
            lemma_first_of(d, j + 1, kinds);
        }
        seq![parse_error_at(d, j, ParseErrorReason::UNEXPECTED_TOKEN)] + declarations_errors(
            d,
            past_semicolon(d, first_of(d, j, kinds)),
        )
    }
}

/// The shape of a declaration: its name, its value and whether it is important.
pub open spec fn declaration_shape(d: Declaration) -> (TokenData, Seq<ValueTree>, bool) {
    (d.name, cvs_model(d.value@), d.important)
}

/// The shape of a qualified rule: its prelude, its selectors and its style block.
pub open spec fn qualified_rule_shape(r: QualifiedRule) -> (
    Seq<ValueTree>,
    Seq<ComplexView>,
    Option<(TokenData, Seq<ItemTree>, Option<TokenData>)>,
) {
    (
        cvs_model(r.prelude@),
        complex_views(r.selectors.selectors@),
        match r.block {
            Some(b) => Some(style_block_shape(b)),
            None => None,
        },
    )
}

/// The qualified rule that starts at `i`: its prelude of values up to a `{` or `EOF`, the
/// selectors read from its prelude, and the style block that a `{` opens; and the index
/// after it.
pub open spec fn qualified_rule_at(d: Seq<TokenData>, i: int) -> (
    (Seq<ValueTree>, Seq<ComplexView>, Option<(TokenData, Seq<ItemTree>, Option<TokenData>)>),
    int,
) {
    let pre = values_until(d, i, set![TokenKind::CURLY_OPEN]);
    let selectors = successes(parts_from(pre.0, 0));
    let k = pre.1;
    if 0 <= k < d.len() && d[k].kind == TokenKind::CURLY_OPEN {
        let b = style_block_at(d, k);
        ((pre.0, selectors, Some(b.0)), b.1)
    } else {
        ((pre.0, selectors, None), k)
    }
}

/// The errors of the qualified rule that starts at `i`: those of its prelude, one unexpected
/// end where `EOF` ends the prelude and it recorded none, those of its selectors, and those
/// of its style block.
pub open spec fn qualified_rule_errors(d: Seq<TokenData>, i: int) -> Seq<ParseError> {
    let pre = values_until(d, i, set![TokenKind::CURLY_OPEN]);
    let errors = values_errors(d, i, set![TokenKind::CURLY_OPEN]);
    let selector_errors = failures(parts_from(pre.0, 0));
    let k = pre.1;
    if 0 <= k < d.len() && d[k].kind == TokenKind::CURLY_OPEN {
        errors + selector_errors + style_block_errors(d, k)
    } else if errors.len() == 0 {
        seq![parse_error_at(d, k, ParseErrorReason::UNEXPECTED_EOF)] + selector_errors
    } else {
        errors + selector_errors
    }
}

/// A qualified rule that starts on a token other than `EOF` ends after it.
pub proof fn lemma_qualified_rule_at(d: Seq<TokenData>, i: int)
    requires
        0 <= i < d.len(),
        d[i].kind != TokenKind::EOF,
    ensures
        i < qualified_rule_at(d, i).1 <= d.len(),
{
    lemma_values_until(d, i, set![TokenKind::CURLY_OPEN]);
    if d[i].kind != TokenKind::CURLY_OPEN {
        lemma_value_at(d, i);
        lemma_values_until(d, value_at(d, i).1, set![TokenKind::CURLY_OPEN]);
    }
    let k = values_until(d, i, set![TokenKind::CURLY_OPEN]).1;
    if 0 <= k < d.len() && d[k].kind == TokenKind::CURLY_OPEN {
        lemma_items_from(d, k + 1);
    }
}

/// The shape of a rule.
pub enum RuleTree {
    AtRule((TokenData, Seq<ValueTree>, Option<ValueTree>)),
    QualifiedRule(
        (
            Seq<ValueTree>,
            Seq<ComplexView>,
            Option<(TokenData, Seq<ItemTree>, Option<TokenData>)>,
        ),
    ),
}

pub open spec fn rule_shape(r: Rule) -> RuleTree {
    match r {
        Rule::AT_RULE(r) => RuleTree::AtRule(at_rule_shape(r)),
        Rule::QUALIFIED_RULE(r) => RuleTree::QualifiedRule(qualified_rule_shape(r)),
    }
}

pub open spec fn rules_shape(rules: Seq<Rule>) -> Seq<RuleTree> {
    rules.map_values(|r: Rule| rule_shape(r))
}

/// The rules of a stylesheet from `i` on, up to `EOF`, and the index of that `EOF`:
/// whitespace between rules is skipped; a rule that starts with an at-keyword is an at-rule,
/// any other a qualified rule.
pub open spec fn rules_from(d: Seq<TokenData>, i: int) -> (Seq<RuleTree>, int)
    decreases d.len() - i,
{
    if i < 0 || i >= d.len() || d[i].kind == TokenKind::EOF {
        (seq![], i)
    } else if d[i].kind == TokenKind::WHITESPACE {
        rules_from(d, i + 1)
    } else if d[i].kind == TokenKind::AT_KEYWORD {
        proof {
            lemma_at_rule_at(d, i);
        }
        let r = at_rule_at(d, i);
        let rest = rules_from(d, r.1);
        (seq![RuleTree::AtRule(r.0)] + rest.0, rest.1)
    } else {
        proof {
            lemma_qualified_rule_at(d, i);
        }
        let r = qualified_rule_at(d, i);
        let rest = rules_from(d, r.1);
        (seq![RuleTree::QualifiedRule(r.0)] + rest.0, rest.1)
    }
}

/// The errors of the rules of `rules_from(d, i)`, in order.
pub open spec fn rules_errors(d: Seq<TokenData>, i: int) -> Seq<ParseError>
    decreases d.len() - i,
{
    if i < 0 || i >= d.len() || d[i].kind == TokenKind::EOF {
        seq![]
    } else if d[i].kind == TokenKind::WHITESPACE {
        rules_errors(d, i + 1)
    } else if d[i].kind == TokenKind::AT_KEYWORD {
        proof {
            lemma_at_rule_at(d, i);
        }
        at_rule_errors(d, i) + rules_errors(d, at_rule_at(d, i).1)
    } else {
        proof {
            lemma_qualified_rule_at(d, i);
        }
        qualified_rule_errors(d, i) + rules_errors(d, qualified_rule_at(d, i).1)
    }
}

pub open spec fn declarations_shape(s: Seq<Declaration>) -> Seq<(TokenData, Seq<ValueTree>, bool)> {
    s.map_values(|d: Declaration| declaration_shape(d))
}

/// The declarations of a list from `i` on, up to a `}` or `EOF`, and that token's index:
/// whitespace and `;` are skipped, a declaration without a colon is dropped, and any other
/// token is skipped up to the next `;`, `}` or `EOF` and past a `;`.
pub open spec fn declarations_from(d: Seq<TokenData>, i: int) -> (
    Seq<(TokenData, Seq<ValueTree>, bool)>,
    int,
)
    decreases d.len() - i,
{
    let j = skip_whitespace_and_semicolons(d, i);
    if i < 0 || j >= d.len() || d[j].kind == TokenKind::CURLY_CLOSE || d[j].kind
        == TokenKind::EOF {
        (seq![], j)
    } else if d[j].kind == TokenKind::IDENT {
        proof {
            lemma_skip_whitespace_and_semicolons(d, i);
            lemma_declaration_at(d, j);
        }
        let dec = declaration_at(d, j);
        let rest = declarations_from(d, dec.1);
        (
            match dec.0 {
                Some(x) => seq![x] + rest.0,
                None => rest.0,
            },
            rest.1,
        )
    } else {
        let kinds = seq![TokenKind::SEMICOLON, TokenKind::EOF, TokenKind::CURLY_CLOSE];
        proof {
            lemma_skip_whitespace_and_semicolons(d, i);
            if kinds.contains(d[j].kind) {
                let k = choose|k: int| 0 <= k < kinds.len() && kinds[k] == d[j].kind;
            }
            lemma_first_of(d, j + 1, kinds);
        }
        declarations_from(d, past_semicolon(d, first_of(d, j, kinds)))
    }
}

impl Clone for ComponentValue {
    fn clone(&self) -> (r: Self)
        ensures
            cv_model(r) == cv_model(*self),
    {
        copy_component_value(self)
    }
}

impl Clone for SimpleBlock {
    fn clone(&self) -> (r: Self)
        ensures
            r.opening == self.opening,
            r.closing == self.closing,
            cvs_model(r.values@) == cvs_model(self.values@),
    {
        SimpleBlock {
            opening: self.opening,
            values: copy_component_values(&self.values),
            closing: self.closing,
        }
    }
}

impl Clone for Function {
    fn clone(&self) -> (r: Self)
        ensures
            r.name == self.name,
            r.closing == self.closing,
            cvs_model(r.values@) == cvs_model(self.values@),
    {
        Function {
            name: self.name,
            values: copy_component_values(&self.values),
            closing: self.closing,
        }
    }
}

/// A copy of a component value.
pub fn copy_component_value(cv: &ComponentValue) -> (r: ComponentValue)
    ensures
        cv_model(r) == cv_model(*cv),
    decreases cv,
{
    match cv {
        ComponentValue::PRESERVED(t) => ComponentValue::PRESERVED(*t),
        ComponentValue::SIMPLE_BLOCK(b) => ComponentValue::SIMPLE_BLOCK(
            SimpleBlock {
                opening: b.opening,
                values: copy_component_values(&b.values),
                closing: b.closing,
            },
        ),
        ComponentValue::FUNCTION(f) => ComponentValue::FUNCTION(
            Function { name: f.name, values: copy_component_values(&f.values), closing: f.closing },
        ),
    }
}

/// A copy of a list of component values.
pub fn copy_component_values(values: &Vec<ComponentValue>) -> (r: Vec<ComponentValue>)
    ensures
        cvs_model(r@) == cvs_model(values@),
    decreases values,
{
    let mut r: Vec<ComponentValue> = Vec::new();
    let mut i: usize = 0;
    while i < values.len()
        invariant
            i <= values.len(),
            r@.len() == i,
            cvs_model(r@) == cvs_model(values@.take(i as int)),
        decreases values.len() - i,
    {
        assert(decreases_to!(values => values@[i as int]));
        let c = copy_component_value(&values[i]);
        let ghost before = r@;
        r.push(c);
        proof {
            assert(r@.drop_last() =~= before);
            assert(values@.take(i + 1).drop_last() =~= values@.take(i as int));
            assert(values@.take(i + 1).last() == values@[i as int]);
        }
        i = i + 1;
    }
    assert(values@.take(i as int) =~= values@);
    r
}

pub open spec fn opt_seq(t: Option<TokenData>) -> Seq<TokenData> {
    match t {
        Some(t) => seq![t],
        None => seq![],
    }
}

/// The tokens of a component value, in source order.
pub open spec fn cv_tokens(cv: ComponentValue) -> Seq<TokenData>
    decreases cv,
{
    match cv {
        ComponentValue::PRESERVED(t) => seq![t],
        ComponentValue::SIMPLE_BLOCK(b) => seq![b.opening] + cvs_tokens(b.values@) + opt_seq(
            b.closing,
        ),
        ComponentValue::FUNCTION(f) => seq![f.name] + cvs_tokens(f.values@) + opt_seq(f.closing),
    }
}

/// The tokens of a list of component values, in source order.
pub open spec fn cvs_tokens(s: Seq<ComponentValue>) -> Seq<TokenData>
    decreases s,
{
    if s.len() == 0 {
        seq![]
    } else {
        cvs_tokens(s.drop_last()) + cv_tokens(s.last())
    }
}


pub open spec fn block_tokens(b: Option<SimpleBlock>) -> Seq<TokenData> {
    match b {
        Some(b) => cv_tokens(ComponentValue::SIMPLE_BLOCK(b)),
        None => seq![],
    }
}

/// The tokens of a declaration: its name and its value.
pub open spec fn declaration_tokens(d: Declaration) -> Seq<TokenData> {
    seq![d.name] + cvs_tokens(d.value@)
}

pub open spec fn declarations_tokens(s: Seq<Declaration>) -> Seq<TokenData>
    decreases s.len(),
{
    if s.len() == 0 {
        seq![]
    } else {
        declarations_tokens(s.drop_last()) + declaration_tokens(s.last())
    }
}

/// The tokens of an at-rule: its name, its prelude and its block.
pub open spec fn at_rule_tokens(r: AtRule) -> Seq<TokenData> {
    seq![r.name] + cvs_tokens(r.prelude@) + block_tokens(r.block)
}

pub open spec fn item_tokens(i: StyleBlockItem) -> Seq<TokenData> {
    match i {
        StyleBlockItem::DECLARATION(d) => declaration_tokens(d),
        StyleBlockItem::AT_RULE(r) => at_rule_tokens(r),
    }
}

pub open spec fn items_tokens(s: Seq<StyleBlockItem>) -> Seq<TokenData>
    decreases s.len(),
{
    if s.len() == 0 {
        seq![]
    } else {
        items_tokens(s.drop_last()) + item_tokens(s.last())
    }
}

pub open spec fn style_block_tokens(b: Option<StyleBlock>) -> Seq<TokenData> {
    match b {
        Some(b) => seq![b.opening] + items_tokens(b.items@) + opt_seq(b.closing),
        None => seq![],
    }
}

/// The tokens of a qualified rule: its prelude and its block.
pub open spec fn qualified_rule_tokens(r: QualifiedRule) -> Seq<TokenData> {
    cvs_tokens(r.prelude@) + style_block_tokens(r.block)
}

pub open spec fn rule_tokens(r: Rule) -> Seq<TokenData> {
    match r {
        Rule::AT_RULE(r) => at_rule_tokens(r),
        Rule::QUALIFIED_RULE(r) => qualified_rule_tokens(r),
    }
}

pub open spec fn rules_tokens(s: Seq<Rule>) -> Seq<TokenData>
    decreases s.len(),
{
    if s.len() == 0 {
        seq![]
    } else {
        rules_tokens(s.drop_last()) + rule_tokens(s.last())
    }
}

/// The tokens that a stylesheet keeps, in source order.
pub open spec fn stylesheet_tokens(s: Stylesheet) -> Seq<TokenData> {
    rules_tokens(s.rule_list@)
}

pub open spec fn is_whitespace_value(cv: ComponentValue) -> bool {
    cv matches ComponentValue::PRESERVED(t) && t.kind == TokenKind::WHITESPACE
}

pub open spec fn is_important_value(cv: ComponentValue) -> bool {
    cv matches ComponentValue::PRESERVED(t) && t.kind == TokenKind::IMPORTANT_TOKEN
}

#[allow(non_camel_case_types)]
#[derive(Debug, Clone, Copy, PartialEq, Eq, Structural)]
pub enum ParseErrorReason {
    UNEXPECTED_TOKEN,
    UNEXPECTED_EOF,
}

#[derive(Debug, Clone, Copy, PartialEq, Eq, Structural)]
pub struct ParseError {
    pub reason: ParseErrorReason,
    pub line: usize,
    pub span: LexerSpan,
}

#[derive(Debug, Clone, PartialEq, Eq)]
pub struct ParseResult<T> {
    pub value: T,
    pub errors: Vec<ParseError>,
}

/// The data of every token, in order.
pub open spec fn token_datas(tokens: Seq<Token>) -> Seq<TokenData> {
    Seq::new(tokens.len(), |i: int| token_data(tokens[i]))
}

/// An `EOF` token stands at index `i` or later.
pub open spec fn eof_ahead(tokens: Seq<Token>, i: int) -> bool {
    exists|j: int| i <= j < tokens.len() && tokens[j].kind == TokenKind::EOF
}

/// An error points at a token of `data`, or at line 0, span (0, 0) when there was none.
pub open spec fn error_points_into(e: ParseError, data: Seq<TokenData>) -> bool {
    ||| (exists|k: int| 0 <= k < data.len() && e.line == data[k].line && e.span == data[k].span)
    ||| (e.line == 0 && e.span == LexerSpan(0, 0))
}

pub open spec fn errors_point_into(errors: Seq<ParseError>, data: Seq<TokenData>) -> bool {
    forall|i: int| 0 <= i < errors.len() ==> error_points_into(#[trigger] errors[i], data)
}

/// The closing kind of a block opener.
pub open spec fn closer_of(kind: TokenKind) -> Option<TokenKind> {
    match kind {
        TokenKind::CURLY_OPEN => Some(TokenKind::CURLY_CLOSE),
        TokenKind::BRACKET_OPEN => Some(TokenKind::BRACKET_CLOSE),
        TokenKind::PAREN_OPEN => Some(TokenKind::PAREN_CLOSE),
        _ => None,
    }
}

pub fn matching_close(kind: &TokenKind) -> (r: Option<TokenKind>)
    ensures
        r == closer_of(*kind),
{
    match kind {
        TokenKind::CURLY_OPEN => Some(TokenKind::CURLY_CLOSE),
        TokenKind::BRACKET_OPEN => Some(TokenKind::BRACKET_CLOSE),
        TokenKind::PAREN_OPEN => Some(TokenKind::PAREN_CLOSE),
        _ => None,
    }
}

/// Whether `kind` is one of `kinds`.
fn kind_in(kind: TokenKind, kinds: &[TokenKind]) -> (r: bool)
    ensures
        r == kinds@.contains(kind),
{
    let mut i: usize = 0;
    while i < kinds.len()
        invariant
            i <= kinds@.len(),
            forall|k: int| 0 <= k < i ==> kinds@[k] != kind,
        decreases kinds@.len() - i,
    {
        if kinds[i] == kind {
            return true;
        }
        i = i + 1;
    }
    false
}

fn is_whitespace_component(cv: &ComponentValue) -> (r: bool)
    ensures
        r == is_whitespace_value(*cv),
{
    match cv {
        ComponentValue::PRESERVED(t) => t.kind == TokenKind::WHITESPACE,
        _ => false,
    }
}

fn is_important_component(cv: &ComponentValue) -> (r: bool)
    ensures
        r == is_important_value(*cv),
{
    match cv {
        ComponentValue::PRESERVED(t) => t.kind == TokenKind::IMPORTANT_TOKEN,
        _ => false,
    }
}

/// A recursive-descent parser over a token slice that ends in `EOF`. It never fails: it
/// records errors and recovers at the next safe point.
pub struct Parser<'a> {
    tokens: &'a [Token],
    current: usize,
    errors: Vec<ParseError>,
}

#[derive(Debug, Clone, Copy)]
pub struct RecoveryCheckpoint {
    token_index: usize,
    error_index: usize,
}

impl<'a> Parser<'a> {
    /// The tokens being parsed.
    pub closed spec fn input(&self) -> Seq<Token> {
        self.tokens@
    }

    /// Index of the next token.
    pub closed spec fn position(&self) -> int {
        self.current as int
    }

    /// Errors recorded and not yet handed out.
    pub closed spec fn pending(&self) -> Seq<ParseError> {
        self.errors@
    }

    pub open spec fn data(&self) -> Seq<TokenData> {
        token_datas(self.input())
    }

    /// The parser has not gone past the `EOF`, and its errors point at input tokens.
    pub open spec fn wf(&self) -> bool {
        &&& self.position() >= 0
        &&& eof_ahead(self.input(), self.position())
        &&& errors_point_into(self.pending(), self.data())
    }

    pub open spec fn kind_at(&self, i: int) -> Option<TokenKind> {
        if 0 <= i < self.input().len() {
            Some(self.input()[i].kind)
        } else {
            None
        }
    }

    /// Progress: same input, the cursor did not move back, and errors were only added.
    pub open spec fn progressed(&self, old: &Self) -> bool {
        &&& self.wf()
        &&& self.input() == old.input()
        &&& self.position() >= old.position()
        &&& self.pending().len() >= old.pending().len()
        &&& forall|i: int|
            0 <= i < old.pending().len() ==> #[trigger] self.pending()[i] == old.pending()[i]
    }

    /// The token data of the input between two positions.
    pub open spec fn span_data(&self, a: int, b: int) -> Seq<TokenData> {
        self.data().subrange(a, b)
    }

    pub fn new(tokens: &'a [Token]) -> (parser: Self)
        ensures
            parser.input() == tokens@,
            parser.position() == 0,
            parser.pending().len() == 0,
    {
        Self { tokens, current: 0, errors: Vec::new() }
    }

    pub fn peek_kind(&self) -> (r: Option<TokenKind>)
        ensures
            r == self.kind_at(self.position()),
    {
        if self.current < self.tokens.len() {
            Some(self.tokens[self.current].kind)
        } else {
            None
        }
    }

    pub fn check(&self, kind: TokenKind) -> (r: bool)
        ensures
            r == (self.kind_at(self.position()) == Some(kind)),
    {
        match self.peek_kind() {
            Some(current) => current == kind,
            None => false,
        }
    }

    proof fn lemma_step(&self, next: &Self)
        requires
            self.wf(),
            self.kind_at(self.position()) matches Some(k) && k != TokenKind::EOF,
            next.input() == self.input(),
            next.position() == self.position() + 1,
            errors_point_into(next.pending(), next.data()),
        ensures
            next.wf(),
    {
        let j = choose|j: int| self.position() <= j < self.input().len() && self.input()[j].kind
            == TokenKind::EOF;
        assert(j != self.position());
        assert(self.position() + 1 <= j);
    }

    /// Moves past the next token when it is of `kind`, which is not `EOF`.
    pub fn match_kind(&mut self, kind: TokenKind) -> (r: bool)
        requires
            old(self).wf(),
            kind != TokenKind::EOF,
        ensures
            final(self).progressed(old(self)),
            final(self).pending() == old(self).pending(),
            r == (old(self).kind_at(old(self).position()) == Some(kind)),
            final(self).position() == old(self).position() + if r { 1int } else { 0 },
    {
        if self.current < self.tokens.len() && self.tokens[self.current].kind == kind {
            let ghost before = *self;
            self.current = self.current + 1;
            proof {
                before.lemma_step(self);
            }
            return true;
        }
        false
    }

    /// Takes the next token, which must not be `EOF`.
    pub fn consume(&mut self) -> (r: Option<TokenData>)
        requires
            old(self).wf(),
            old(self).kind_at(old(self).position()) != Some(TokenKind::EOF),
        ensures
            final(self).progressed(old(self)),
            final(self).pending() == old(self).pending(),
            final(self).position() == old(self).position() + 1,
            r == Some(old(self).data()[old(self).position()]),
    {
        proof {
            let j = choose|j: int|
                self.position() <= j < self.input().len() && self.input()[j].kind == TokenKind::EOF;
        }
        let token = &self.tokens[self.current];
        let ghost before = *self;
        self.current = self.current + 1;
        proof {
            before.lemma_step(self);
        }
        Some(TokenData::from(token))
    }

    /// Takes the next token when it is of `kind`; otherwise records an unexpected token.
    pub fn expect_consume(&mut self, kind: TokenKind) -> (r: Option<TokenData>)
        requires
            old(self).wf(),
            kind != TokenKind::EOF,
        ensures
            final(self).progressed(old(self)),
            old(self).kind_at(old(self).position()) == Some(kind) ==> {
                &&& r == Some(old(self).data()[old(self).position()])
                &&& final(self).position() == old(self).position() + 1
                &&& final(self).pending() == old(self).pending()
            },
            old(self).kind_at(old(self).position()) != Some(kind) ==> {
                &&& r is None
                &&& final(self).position() == old(self).position()
                &&& final(self).pending().len() == old(self).pending().len() + 1
                &&& final(self).pending().last().reason == ParseErrorReason::UNEXPECTED_TOKEN
            },
    {
        if self.check(kind) {
            return self.consume();
        }
        self.error(ParseErrorReason::UNEXPECTED_TOKEN);
        None
    }

    /// The token before the cursor.
    pub fn unconsume(&self) -> (r: Option<TokenData>)
        ensures
            r == if 0 < self.position() <= self.input().len() {
                Some(self.data()[self.position() - 1])
            } else {
                None
            },
    {
        if self.current == 0 || self.current > self.tokens.len() {
            return None;
        }
        Some(TokenData::from(&self.tokens[self.current - 1]))
    }

    /// Records an error at the next token.
    pub fn error(&mut self, reason: ParseErrorReason)
        requires
            old(self).wf(),
        ensures
            final(self).wf(),
            final(self).input() == old(self).input(),
            final(self).position() == old(self).position(),
            final(self).pending() == old(self).pending().push(
                ParseError {
                    reason,
                    line: old(self).input()[old(self).position()].line,
                    span: old(self).input()[old(self).position()].span,
                },
            ),
    {
        let ghost before = self.errors@;
        if self.current < self.tokens.len() {
            let token = &self.tokens[self.current];
            self.errors.push(ParseError { reason, line: token.line, span: token.span });
            proof {
                assert(self.data()[self.position()] == token_data(self.input()[self.position()]));
            }
        } else {
            self.errors.push(ParseError { reason, line: 0, span: LexerSpan(0, 0) });
        }
        proof {
            assert forall|i: int| 0 <= i < self.errors@.len() implies error_points_into(
                #[trigger] self.errors@[i],
                self.data(),
            ) by {
                if i < before.len() {
                    assert(self.errors@[i] == before[i]);
                }
            }
        }
    }

    fn checkpoint(&self) -> (c: RecoveryCheckpoint)
        ensures
            c.token_index == self.position(),
            c.error_index == self.pending().len(),
    {
        RecoveryCheckpoint { token_index: self.current, error_index: self.errors.len() }
    }

    /// Records an error unless one was recorded since `checkpoint`.
    fn error_if_clean(&mut self, checkpoint: RecoveryCheckpoint, reason: ParseErrorReason)
        requires
            old(self).wf(),
        ensures
            final(self).progressed(old(self)),
            final(self).position() == old(self).position(),
            final(self).pending().len() <= old(self).pending().len() + 1,
            final(self).pending() == if old(self).position() >= checkpoint.token_index && old(
                self,
            ).pending().len() == checkpoint.error_index {
                old(self).pending() + seq![
                    parse_error_at(old(self).data(), old(self).position(), reason),
                ]
            } else {
                old(self).pending()
            },
    {
        proof {
            self.lemma_in_bounds();
        }
        if self.current >= checkpoint.token_index && self.errors.len() == checkpoint.error_index {
            self.error(reason);
            proof {
                assert(old(self).pending().push(
                    parse_error_at(old(self).data(), old(self).position(), reason),
                ) =~= old(self).pending() + seq![
                    parse_error_at(old(self).data(), old(self).position(), reason),
                ]);
            }
        }
    }

    /// Skips tokens up to the first one whose kind is in `boundaries`, which holds `EOF`.
    fn synchronize_to(&mut self, boundaries: &[TokenKind])
        requires
            old(self).wf(),
            boundaries@.contains(TokenKind::EOF),
        ensures
            final(self).progressed(old(self)),
            final(self).pending() == old(self).pending(),
            final(self).kind_at(final(self).position()) matches Some(k) && boundaries@.contains(k),
            final(self).position() == first_of(old(self).data(), old(self).position(), boundaries@),
    {
        loop
            invariant_except_break
                self.progressed(old(self)),
                self.pending() == old(self).pending(),
                boundaries@.contains(TokenKind::EOF),
                first_of(self.data(), self.position(), boundaries@) == first_of(
                    old(self).data(),
                    old(self).position(),
                    boundaries@,
                ),
            ensures
                self.progressed(old(self)),
                self.pending() == old(self).pending(),
                self.kind_at(self.position()) matches Some(k) && boundaries@.contains(k),
                self.position() == first_of(old(self).data(), old(self).position(), boundaries@),
            decreases self.input().len() - self.position(),
        {
            proof {
                let j = choose|j: int|
                    self.position() <= j < self.input().len() && self.input()[j].kind
                        == TokenKind::EOF;
            }
            let kind = self.tokens[self.current].kind;
            if kind_in(kind, boundaries) {
                break ;
            }
            let ghost before = *self;
            self.current = self.current + 1;
            proof {
                before.lemma_step(self);
            }
        }
    }

    fn synchronize_declaration(&mut self)
        requires
            old(self).wf(),
        ensures
            final(self).progressed(old(self)),
            final(self).pending() == old(self).pending(),
            (old(self).kind_at(old(self).position()) matches Some(k) && k != TokenKind::SEMICOLON
                && k != TokenKind::CURLY_CLOSE && k != TokenKind::EOF) ==> final(self).position()
                > old(self).position(),
            final(self).position() == past_semicolon(
                old(self).data(),
                first_of(
                    old(self).data(),
                    old(self).position(),
                    seq![TokenKind::SEMICOLON, TokenKind::EOF, TokenKind::CURLY_CLOSE],
                ),
            ),
    {
        let boundaries = [TokenKind::SEMICOLON, TokenKind::EOF, TokenKind::CURLY_CLOSE];
        proof {
            assert(boundaries@[1] == TokenKind::EOF);
            assert(boundaries@ =~= seq![TokenKind::SEMICOLON, TokenKind::EOF, TokenKind::CURLY_CLOSE]);
        }
        self.synchronize_to(&boundaries);
        self.match_kind(TokenKind::SEMICOLON);
    }

    fn synchronize_style_block(&mut self)
        requires
            old(self).wf(),
        ensures
            final(self).progressed(old(self)),
            final(self).pending() == old(self).pending(),
            (old(self).kind_at(old(self).position()) matches Some(k) && k != TokenKind::SEMICOLON
                && k != TokenKind::CURLY_CLOSE && k != TokenKind::EOF) ==> final(self).position()
                > old(self).position(),
            final(self).position() == past_semicolon(
                old(self).data(),
                first_of(
                    old(self).data(),
                    old(self).position(),
                    seq![TokenKind::SEMICOLON, TokenKind::CURLY_CLOSE, TokenKind::EOF],
                ),
            ),
    {
        let boundaries = [TokenKind::SEMICOLON, TokenKind::CURLY_CLOSE, TokenKind::EOF];
        proof {
            assert(boundaries@[2] == TokenKind::EOF);
            assert(boundaries@ =~= seq![TokenKind::SEMICOLON, TokenKind::CURLY_CLOSE, TokenKind::EOF]);
        }
        self.synchronize_to(&boundaries);
        self.match_kind(TokenKind::SEMICOLON);
    }

    proof fn lemma_in_bounds(&self)
        requires
            self.wf(),
        ensures
            self.position() < self.input().len(),
            self.data().len() == self.input().len(),
    {
        let j = choose|j: int|
            self.position() <= j < self.input().len() && self.input()[j].kind == TokenKind::EOF;
    }

    /// Parses one component value: a function, a block, or a preserved token. An unmatched
    /// closing token is kept, with an error. Returns `None` only at `EOF`.
    pub fn parse_component_value(&mut self) -> (r: Option<ComponentValue>)
        requires
            old(self).wf(),
        ensures
            final(self).progressed(old(self)),
            r is None <==> old(self).kind_at(old(self).position()) == Some(TokenKind::EOF),
            r is None ==> final(self).position() == old(self).position() && final(self).pending()
                == old(self).pending(),
            r matches Some(cv) ==> {
                &&& final(self).position() > old(self).position()
                &&& embeds(
                    cv_tokens(cv),
                    old(self).span_data(old(self).position(), final(self).position()),
                )
                &&& cv_model(cv) == value_at(old(self).data(), old(self).position()).0
                &&& final(self).position() == value_at(old(self).data(), old(self).position()).1
            },
            final(self).pending() == old(self).pending() + value_errors(
                old(self).data(),
                old(self).position(),
            ),
        decreases old(self).input().len() - old(self).position(), 1int,
    {
        proof {
            self.lemma_in_bounds();
        }
        let ghost a = self.position();
        match self.peek_kind() {
            Some(TokenKind::FUNCTION) => {
                let f = self.parse_function();
                Some(ComponentValue::FUNCTION(f))
            },
            Some(TokenKind::CURLY_OPEN) | Some(TokenKind::BRACKET_OPEN) | Some(
                TokenKind::PAREN_OPEN,
            ) => {
                let b = self.parse_simple_block();
                Some(ComponentValue::SIMPLE_BLOCK(b))
            },
            Some(TokenKind::CURLY_CLOSE) | Some(TokenKind::BRACKET_CLOSE) | Some(
                TokenKind::PAREN_CLOSE,
            ) => {
                self.error(ParseErrorReason::UNEXPECTED_TOKEN);
                let t = self.consume().unwrap();
                proof {
                    lemma_embeds_at(self.data(), a);
                    assert(self.pending() =~= old(self).pending() + value_errors(
                        old(self).data(),
                        a,
                    ));
                }
                Some(ComponentValue::PRESERVED(t))
            },
            Some(TokenKind::EOF) | None => {
                proof {
                    assert(self.pending() =~= old(self).pending() + value_errors(
                        old(self).data(),
                        a,
                    ));
                }
                None
            },
            Some(_) => {
                let t = self.consume().unwrap();
                proof {
                    lemma_embeds_at(self.data(), a);
                    assert(self.pending() =~= old(self).pending() + value_errors(
                        old(self).data(),
                        a,
                    ));
                }
                Some(ComponentValue::PRESERVED(t))
            },
        }
    }

    /// Parses a block from its opening token to the matching closing token, or to `EOF`,
    /// where it records an error unless the block's contents already did.
    pub fn parse_simple_block(&mut self) -> (r: SimpleBlock)
        requires
            old(self).wf(),
            old(self).kind_at(old(self).position()) matches Some(k) && closer_of(k) is Some,
        ensures
            final(self).progressed(old(self)),
            final(self).position() > old(self).position(),
            r.opening == old(self).data()[old(self).position()],
            r.closing matches Some(c) ==> c.kind == closer_of(r.opening.kind).unwrap() && c
                == old(self).data()[final(self).position() - 1],
            r.closing is None ==> final(self).kind_at(final(self).position()) == Some(
                TokenKind::EOF,
            ),
            embeds(
                cv_tokens(ComponentValue::SIMPLE_BLOCK(r)),
                old(self).span_data(old(self).position(), final(self).position()),
            ),
            ({
                let n = nest_at(
                    old(self).data(),
                    old(self).position(),
                    closer_of(r.opening.kind)->0,
                );
                &&& cvs_model(r.values@) == n.0
                &&& r.closing == n.1
                &&& final(self).position() == n.2
            }),
            final(self).pending() == old(self).pending() + nest_errors(
                old(self).data(),
                old(self).position(),
                closer_of(r.opening.kind)->0,
            ),
        decreases old(self).input().len() - old(self).position(), 0int,
    {
        proof {
            self.lemma_in_bounds();
        }
        let ghost a = self.position();
        let ghost d = self.data();
        let opening = self.consume().unwrap();
        let checkpoint = self.checkpoint();
        let expected = matching_close(&opening.kind).unwrap();
        let mut values: Vec<ComponentValue> = Vec::new();
        proof {
            lemma_embeds_none(d, a + 1, a + 1);
        }
        while !self.check(expected) && !self.check(TokenKind::EOF)
            invariant
                self.progressed(old(self)),
                d == self.data(),
                self.position() >= a + 1,
                a == old(self).position(),
                expected != TokenKind::EOF,
                embeds(cvs_tokens(values@), d.subrange(a + 1, self.position())),
                cvs_model(values@) + values_until(d, self.position(), set![expected]).0 == values_until(
                    d,
                    a + 1,
                    set![expected],
                ).0,
                values_until(d, self.position(), set![expected]).1 == values_until(d, a + 1, set![expected]).1,
                self.pending() + values_errors(d, self.position(), set![expected]) == old(
                    self,
                ).pending() + values_errors(d, a + 1, set![expected]),
                checkpoint.token_index == a + 1,
                checkpoint.error_index == old(self).pending().len(),
            decreases self.input().len() - self.position(),
        {
            proof {
                self.lemma_in_bounds();
            }
            let ghost m = self.position();
            let ghost before = values@;
            let ghost pending_before = self.pending();
            let v = self.parse_component_value();
            let v = v.unwrap();
            values.push(v);
            proof {
                self.lemma_in_bounds();
                lemma_values_step(d, m, set![expected], before, v, self.position());
                lemma_errors_step(
                    pending_before,
                    self.pending(),
                    value_errors(d, m),
                    values_errors(d, self.position(), set![expected]),
                    values_errors(d, m, set![expected]),
                );
                lemma_cvs_tokens_push(before, v);
                lemma_embeds_append(cvs_tokens(before), cv_tokens(v), d, a + 1, m, self.position());
            }
        }
        let ghost m = self.position();
        let closing = if self.check(expected) {
            self.consume()
        } else {
            self.error_if_clean(checkpoint, ParseErrorReason::UNEXPECTED_EOF);
            None
        };
        proof {
            self.lemma_in_bounds();
            let blk = SimpleBlock { opening, values, closing };
            assert(cv_tokens(ComponentValue::SIMPLE_BLOCK(blk)) == seq![opening] + cvs_tokens(
                values@,
            ) + opt_seq(closing));
            lemma_embeds_at(d, a);
            lemma_embeds_append(seq![opening], cvs_tokens(values@), d, a, a + 1, m);
            if closing is Some {
                lemma_embeds_at(d, m);
                lemma_embeds_append(
                    seq![opening] + cvs_tokens(values@),
                    opt_seq(closing),
                    d,
                    a,
                    m,
                    m + 1,
                );
            } else {
                lemma_embeds_none(d, m, m);
                lemma_embeds_append(
                    seq![opening] + cvs_tokens(values@),
                    opt_seq(closing),
                    d,
                    a,
                    m,
                    m,
                );
            }
        }
        SimpleBlock { opening, values, closing }
    }

    /// Parses a function from its name token to the closing parenthesis, or to `EOF`, where it
    /// records an error unless its arguments already did.
    pub fn parse_function(&mut self) -> (r: Function)
        requires
            old(self).wf(),
            old(self).kind_at(old(self).position()) != Some(TokenKind::EOF),
        ensures
            final(self).progressed(old(self)),
            final(self).position() > old(self).position(),
            r.name == old(self).data()[old(self).position()],
            r.closing matches Some(c) ==> c.kind == TokenKind::PAREN_CLOSE && c == old(
                self,
            ).data()[final(self).position() - 1],
            r.closing is None ==> final(self).kind_at(final(self).position()) == Some(
                TokenKind::EOF,
            ),
            embeds(
                cv_tokens(ComponentValue::FUNCTION(r)),
                old(self).span_data(old(self).position(), final(self).position()),
            ),
            ({
                let n = nest_at(old(self).data(), old(self).position(), TokenKind::PAREN_CLOSE);
                &&& cvs_model(r.values@) == n.0
                &&& r.closing == n.1
                &&& final(self).position() == n.2
            }),
            final(self).pending() == old(self).pending() + nest_errors(
                old(self).data(),
                old(self).position(),
                TokenKind::PAREN_CLOSE,
            ),
        decreases old(self).input().len() - old(self).position(), 0int,
    {
        proof {
            self.lemma_in_bounds();
        }
        let ghost a = self.position();
        let ghost d = self.data();
        let name = self.consume().unwrap();
        let checkpoint = self.checkpoint();
        let mut values: Vec<ComponentValue> = Vec::new();
        proof {
            lemma_embeds_none(d, a + 1, a + 1);
        }
        while !self.check(TokenKind::PAREN_CLOSE) && !self.check(TokenKind::EOF)
            invariant
                self.progressed(old(self)),
                d == self.data(),
                self.position() >= a + 1,
                a == old(self).position(),
                embeds(cvs_tokens(values@), d.subrange(a + 1, self.position())),
                cvs_model(values@) + values_until(d, self.position(), set![TokenKind::PAREN_CLOSE]).0
                    == values_until(d, a + 1, set![TokenKind::PAREN_CLOSE]).0,
                values_until(d, self.position(), set![TokenKind::PAREN_CLOSE]).1 == values_until(
                    d,
                    a + 1,
                    set![TokenKind::PAREN_CLOSE],
                ).1,
                self.pending() + values_errors(d, self.position(), set![TokenKind::PAREN_CLOSE])
                    == old(self).pending() + values_errors(d, a + 1, set![TokenKind::PAREN_CLOSE]),
                checkpoint.token_index == a + 1,
                checkpoint.error_index == old(self).pending().len(),
            decreases self.input().len() - self.position(),
        {
            proof {
                self.lemma_in_bounds();
            }
            let ghost m = self.position();
            let ghost before = values@;
            let ghost pending_before = self.pending();
            let v = self.parse_component_value();
            let v = v.unwrap();
            values.push(v);
            proof {
                self.lemma_in_bounds();
                lemma_values_step(d, m, set![TokenKind::PAREN_CLOSE], before, v, self.position());
                lemma_errors_step(
                    pending_before,
                    self.pending(),
                    value_errors(d, m),
                    values_errors(d, self.position(), set![TokenKind::PAREN_CLOSE]),
                    values_errors(d, m, set![TokenKind::PAREN_CLOSE]),
                );
                lemma_cvs_tokens_push(before, v);
                lemma_embeds_append(cvs_tokens(before), cv_tokens(v), d, a + 1, m, self.position());
            }
        }
        let ghost m = self.position();
        let closing = if self.match_kind(TokenKind::PAREN_CLOSE) {
            self.unconsume()
        } else {
            self.error_if_clean(checkpoint, ParseErrorReason::UNEXPECTED_EOF);
            None
        };
        proof {
            self.lemma_in_bounds();
            let f = Function { name, values, closing };
            assert(cv_tokens(ComponentValue::FUNCTION(f)) == seq![name] + cvs_tokens(values@)
                + opt_seq(closing));
            lemma_embeds_at(d, a);
            lemma_embeds_append(seq![name], cvs_tokens(values@), d, a, a + 1, m);
            if closing is Some {
                lemma_embeds_at(d, m);
                lemma_embeds_append(seq![name] + cvs_tokens(values@), opt_seq(closing), d, a, m, m + 1);
            } else {
                lemma_embeds_none(d, m, m);
                lemma_embeds_append(seq![name] + cvs_tokens(values@), opt_seq(closing), d, a, m, m);
            }
        }
        Function { name, values, closing }
    }

    /// Moves past any whitespace and semicolons.
    fn skip_whitespace_and_semicolons(&mut self)
        requires
            old(self).wf(),
        ensures
            final(self).progressed(old(self)),
            final(self).pending() == old(self).pending(),
            final(self).kind_at(final(self).position()) != Some(TokenKind::WHITESPACE),
            final(self).kind_at(final(self).position()) != Some(TokenKind::SEMICOLON),
            final(self).position() == skip_whitespace_and_semicolons(
                old(self).data(),
                old(self).position(),
            ),
    {
        loop
            invariant_except_break
                self.progressed(old(self)),
                self.pending() == old(self).pending(),
                skip_whitespace_and_semicolons(self.data(), self.position())
                    == skip_whitespace_and_semicolons(old(self).data(), old(self).position()),
            ensures
                self.progressed(old(self)),
                self.pending() == old(self).pending(),
                self.kind_at(self.position()) != Some(TokenKind::WHITESPACE),
                self.kind_at(self.position()) != Some(TokenKind::SEMICOLON),
                self.position() == skip_whitespace_and_semicolons(
                    old(self).data(),
                    old(self).position(),
                ),
            decreases self.input().len() - self.position(),
        {
            proof {
                self.lemma_in_bounds();
            }
            if !(self.match_kind(TokenKind::WHITESPACE) || self.match_kind(TokenKind::SEMICOLON)) {
                break ;
            }
        }
    }

    /// Parses a declaration from its name: whitespace, a colon, and a value up to `;`, `}` or
    /// `EOF`. Trailing whitespace and a final `!important` leave the value and set `important`.
    /// Without a colon it records an error, skips to the next `;` and gives `None`.
    #[verifier::rlimit(30)]
    pub fn parse_declaration(&mut self) -> (r: Option<Declaration>)
        requires
            old(self).wf(),
            old(self).kind_at(old(self).position()) == Some(TokenKind::IDENT),
        ensures
            final(self).progressed(old(self)),
            final(self).position() > old(self).position(),
            r matches Some(d) ==> {
                &&& d.name == old(self).data()[old(self).position()]
                &&& embeds(
                    declaration_tokens(d),
                    old(self).span_data(old(self).position(), final(self).position()),
                )
                &&& d.important ==> (d.value@.len() == 0 || !is_whitespace_value(d.value@.last()))
            },
            r is None ==> final(self).pending().len() == old(self).pending().len() + 1,
            ({
                let dec = declaration_at(old(self).data(), old(self).position());
                &&& final(self).position() == dec.1
                &&& match dec.0 {
                    Some(x) => r matches Some(d) && d.name == x.0 && cvs_model(d.value@) == x.1
                        && d.important == x.2,
                    None => r is None,
                }
            }),
            final(self).pending() == old(self).pending() + declaration_errors(
                old(self).data(),
                old(self).position(),
            ),
    {
        proof {
            self.lemma_in_bounds();
        }
        let ghost a = self.position();
        let ghost d = self.data();
        let name = self.consume().unwrap();
        loop
            invariant_except_break
                self.progressed(old(self)),
                self.pending() == old(self).pending(),
                self.position() >= a + 1,
                a == old(self).position(),
                d == self.data(),
                skip_whitespace(d, self.position()) == skip_whitespace(d, a + 1),
            ensures
                self.progressed(old(self)),
                self.pending() == old(self).pending(),
                self.position() >= a + 1,
                self.kind_at(self.position()) != Some(TokenKind::WHITESPACE),
                d == self.data(),
                self.position() == skip_whitespace(d, a + 1),
            decreases self.input().len() - self.position(),
        {
            proof {
                self.lemma_in_bounds();
            }
            if !self.match_kind(TokenKind::WHITESPACE) {
                break ;
            }
        }
        if !self.match_kind(TokenKind::COLON) {
            proof {
                self.lemma_in_bounds();
            }
            self.error(ParseErrorReason::UNEXPECTED_TOKEN);
            self.synchronize_declaration();
            proof {
                assert(self.pending() =~= old(self).pending() + declaration_errors(d, a));
            }
            return None;
        }
        let ghost c = self.position();
        let ghost stops = declaration_stops();
        let mut value: Vec<ComponentValue> = Vec::new();
        proof {
            lemma_embeds_none(d, c, c);
            assert(cvs_model(value@) + values_until(d, c, stops).0 =~= values_until(d, c, stops).0);
            assert(self.pending() == old(self).pending());
        }
        loop
            invariant_except_break
                self.progressed(old(self)),
                d == self.data(),
                self.position() >= c,
                a == old(self).position(),
                a >= 0,
                c > a + 1,
                embeds(cvs_tokens(value@), d.subrange(c, self.position())),
                stops == declaration_stops(),
                cvs_model(value@) + values_until(d, self.position(), stops).0 == values_until(
                    d,
                    c,
                    stops,
                ).0,
                values_until(d, self.position(), stops).1 == values_until(d, c, stops).1,
                self.pending() + values_errors(d, self.position(), stops) == old(self).pending()
                    + values_errors(d, c, stops),
            ensures
                self.progressed(old(self)),
                self.position() >= c,
                embeds(cvs_tokens(value@), d.subrange(c, self.position())),
                cvs_model(value@) == values_until(d, c, stops).0,
                self.position() == values_until(d, c, stops).1,
                self.pending() == old(self).pending() + values_errors(d, c, stops),
            decreases self.input().len() - self.position(),
        {
            proof {
                self.lemma_in_bounds();
            }
            match self.peek_kind() {
                Some(TokenKind::SEMICOLON) | Some(TokenKind::EOF) | Some(TokenKind::CURLY_CLOSE)
                | None => {
                    proof {
                        assert(cvs_model(value@) + seq![] =~= cvs_model(value@));
                        assert(self.pending() + seq![] =~= self.pending());
                    }
                    break ;
                },
                _ => {},
            }
            let ghost m = self.position();
            let ghost before = value@;
            let ghost pending_before = self.pending();
            let v = self.parse_component_value();
            let v = v.unwrap();
            value.push(v);
            proof {
                self.lemma_in_bounds();
                lemma_cvs_tokens_push(before, v);
                lemma_embeds_append(cvs_tokens(before), cv_tokens(v), d, c, m, self.position());
                lemma_values_step(d, m, stops, before, v, self.position());
                lemma_errors_step(
                    pending_before,
                    self.pending(),
                    value_errors(d, m),
                    values_errors(d, self.position(), stops),
                    values_errors(d, m, stops),
                );
            }
        }
        let ghost raw = value@;
        let ghost model = cvs_model(raw);
        proof {
            lemma_cvs_model_index(raw);
        }
        let mut value_end = value.len();
        while value_end > 0 && is_whitespace_component(&value[value_end - 1])
            invariant
                value_end <= value@.len(),
                value@ == raw,
                model == cvs_model(raw),
                model.len() == raw.len(),
                forall|j: int| 0 <= j < raw.len() ==> #[trigger] model[j] == cv_model(raw[j]),
                forall|j: int| value_end <= j < raw.len() ==> is_whitespace_tree(#[trigger] model[j]),
            decreases value_end,
        {
            value_end = value_end - 1;
        }
        proof {
            assert(model =~= model.take(value_end as int) + model.skip(value_end as int));
            lemma_trim_whitespace_tail(model.take(value_end as int), model.skip(value_end as int));
            if value_end > 0 {
                assert(model.take(value_end as int).last() == model[value_end - 1]);
            }
            assert(trim_whitespace(model) == model.take(value_end as int));
        }
        let important = value_end > 0 && is_important_component(&value[value_end - 1]);
        if important {
            let index = value_end - 1;
            proof {
                lemma_remove_keeps_order(value@, index as int);
            }
            value.remove(index);
            proof {
                let kept = model.take(index as int) + model.skip(value_end as int);
                lemma_cvs_model_ext(value@, kept);
                assert(model.take(value_end as int).drop_last() =~= model.take(index as int));
                lemma_trim_whitespace_tail(model.take(index as int), model.skip(value_end as int));
            }
            loop
                invariant_except_break
                    embeds(cvs_tokens(value@), cvs_tokens(raw)),
                    trim_whitespace(cvs_model(value@)) == trim_whitespace(
                        model.take(index as int),
                    ),
                ensures
                    embeds(cvs_tokens(value@), cvs_tokens(raw)),
                    value@.len() == 0 || !is_whitespace_value(value@.last()),
                    cvs_model(value@) == trim_whitespace(model.take(index as int)),
                decreases value@.len(),
            {
                let n = value.len();
                proof {
                    lemma_cvs_model_index(value@);
                }
                if n == 0 || !is_whitespace_component(&value[n - 1]) {
                    break ;
                }
                proof {
                    lemma_drop_last_keeps_order(value@);
                    lemma_embeds_trans(cvs_tokens(value@.drop_last()), cvs_tokens(value@), cvs_tokens(raw));
                    let shorter = value@.drop_last();
                    lemma_cvs_model_push(shorter, value@.last());
                    assert(shorter.push(value@.last()) =~= value@);
                    let ms = cvs_model(shorter);
                    assert(is_whitespace_tree(cv_model(value@.last())));
                    assert(ms.push(cv_model(value@.last())).drop_last() =~= ms);
                    assert(trim_whitespace(cvs_model(value@)) == trim_whitespace(ms));
                }
                value.pop();
            }
        } else {
            proof {
                crate::subsequence::lemma_embeds_refl(cvs_tokens(raw));
            }
        }
        let ghost e = self.position();
        self.match_kind(TokenKind::SEMICOLON);
        proof {
            self.lemma_in_bounds();
            lemma_embeds_trans(cvs_tokens(value@), cvs_tokens(raw), d.subrange(c, e));
            lemma_embeds_skip_front(cvs_tokens(value@), d, a + 1, c, e);
            lemma_embeds_at(d, a);
            lemma_embeds_append(seq![name], cvs_tokens(value@), d, a, a + 1, e);
            lemma_embeds_skip(seq![name] + cvs_tokens(value@), d, a, e, self.position());
        }
        Some(Declaration { name, value, important })
    }

    /// Parses an at-rule: its keyword, a prelude of component values, and either `;`, a
    /// block, or nothing at `EOF`.
    pub fn parse_at_rule(&mut self) -> (r: Option<AtRule>)
        requires
            old(self).wf(),
            old(self).kind_at(old(self).position()) == Some(TokenKind::AT_KEYWORD),
        ensures
            final(self).progressed(old(self)),
            final(self).position() > old(self).position(),
            r matches Some(rule) && rule.name == old(self).data()[old(self).position()] && embeds(
                at_rule_tokens(rule),
                old(self).span_data(old(self).position(), final(self).position()),
            ),
            r matches Some(rule) && at_rule_shape(rule) == at_rule_at(
                old(self).data(),
                old(self).position(),
            ).0,
            final(self).position() == at_rule_at(old(self).data(), old(self).position()).1,
            final(self).pending() == old(self).pending() + at_rule_errors(
                old(self).data(),
                old(self).position(),
            ),
    {
        proof {
            self.lemma_in_bounds();
        }
        let ghost a = self.position();
        let ghost d = self.data();
        let name = self.expect_consume(TokenKind::AT_KEYWORD).unwrap();
        let mut prelude: Vec<ComponentValue> = Vec::new();
        let ghost stops = at_rule_stops();
        proof {
            lemma_embeds_none(d, a + 1, a + 1);
            assert(cvs_model(prelude@) + values_until(d, a + 1, stops).0 =~= values_until(
                d,
                a + 1,
                stops,
            ).0);
        }
        loop
            invariant
                self.progressed(old(self)),
                d == self.data(),
                self.position() >= a + 1,
                a == old(self).position(),
                a >= 0,
                name == d[a],
                embeds(cvs_tokens(prelude@), d.subrange(a + 1, self.position())),
                stops == at_rule_stops(),
                cvs_model(prelude@) + values_until(d, self.position(), stops).0 == values_until(
                    d,
                    a + 1,
                    stops,
                ).0,
                values_until(d, self.position(), stops).1 == values_until(d, a + 1, stops).1,
                self.pending() + values_errors(d, self.position(), stops) == old(self).pending()
                    + values_errors(d, a + 1, stops),
            decreases self.input().len() - self.position(),
        {
            proof {
                self.lemma_in_bounds();
                lemma_embeds_at(d, a);
                lemma_embeds_append(seq![name], cvs_tokens(prelude@), d, a, a + 1, self.position());
            }
            let ghost m = self.position();
            if self.check(TokenKind::SEMICOLON) {
                self.consume();
                proof {
                    assert(self.pending() + seq![] =~= self.pending());
                    let rule = AtRule { name, prelude, block: None };
                    assert(at_rule_tokens(rule) =~= seq![name] + cvs_tokens(prelude@));
                    lemma_embeds_skip(at_rule_tokens(rule), d, a, m, self.position());
                }
                return Some(AtRule { name, prelude, block: None });
            }
            if self.check(TokenKind::CURLY_OPEN) {
                let ghost pending_before = self.pending();
                let block = self.parse_simple_block();
                proof {
                    assert(self.pending() + seq![] =~= self.pending());
                    assert(self.pending() =~= old(self).pending() + at_rule_errors(d, a));
                    lemma_embeds_append(
                        seq![name] + cvs_tokens(prelude@),
                        cv_tokens(ComponentValue::SIMPLE_BLOCK(block)),
                        d,
                        a,
                        m,
                        self.position(),
                    );
                }
                return Some(AtRule { name, prelude, block: Some(block) });
            }
            if self.check(TokenKind::EOF) {
                proof {
                    assert(self.pending() + seq![] =~= self.pending());
                    let rule = AtRule { name, prelude, block: None };
                    assert(at_rule_tokens(rule) =~= seq![name] + cvs_tokens(prelude@));
                }
                return Some(AtRule { name, prelude, block: None });
            }
            let ghost before = prelude@;
            let ghost pending_before = self.pending();
            let v = self.parse_component_value();
            let v = v.unwrap();
            prelude.push(v);
            proof {
                self.lemma_in_bounds();
                lemma_cvs_tokens_push(before, v);
                lemma_embeds_append(cvs_tokens(before), cv_tokens(v), d, a + 1, m, self.position());
                lemma_values_step(d, m, stops, before, v, self.position());
                lemma_errors_step(
                    pending_before,
                    self.pending(),
                    value_errors(d, m),
                    values_errors(d, self.position(), stops),
                    values_errors(d, m, stops),
                );
            }
        }
    }

    /// Parses the block of a qualified rule: declarations and at-rules, with whitespace and
    /// stray semicolons skipped. Anything else is an error, skipped up to the next `;` or `}`.
    pub fn parse_style_block(&mut self) -> (r: Option<StyleBlock>)
        requires
            old(self).wf(),
            old(self).kind_at(old(self).position()) == Some(TokenKind::CURLY_OPEN),
        ensures
            final(self).progressed(old(self)),
            final(self).position() > old(self).position(),
            r matches Some(b) && b.opening == old(self).data()[old(self).position()] && embeds(
                style_block_tokens(Some(b)),
                old(self).span_data(old(self).position(), final(self).position()),
            ),
            r matches Some(b) && (b.closing matches Some(c) ==> c.kind == TokenKind::CURLY_CLOSE),
            r matches Some(b) && (b.closing is None ==> final(self).kind_at(final(self).position())
                == Some(TokenKind::EOF)),
            r matches Some(b) && style_block_shape(b) == style_block_at(
                old(self).data(),
                old(self).position(),
            ).0,
            final(self).position() == style_block_at(old(self).data(), old(self).position()).1,
            final(self).pending() == old(self).pending() + style_block_errors(
                old(self).data(),
                old(self).position(),
            ),
    {
        proof {
            self.lemma_in_bounds();
        }
        let ghost a = self.position();
        let ghost d = self.data();
        let opening = self.consume().unwrap();
        let checkpoint = self.checkpoint();
        let mut items: Vec<StyleBlockItem> = Vec::new();
        proof {
            lemma_embeds_none(d, a + 1, a + 1);
            assert(items_shape(items@) + items_from(d, a + 1).0 =~= items_from(d, a + 1).0);
        }
        loop
            invariant
                self.progressed(old(self)),
                d == self.data(),
                self.position() >= a + 1,
                a == old(self).position(),
                a >= 0,
                opening == d[a],
                opening.kind == TokenKind::CURLY_OPEN,
                embeds(items_tokens(items@), d.subrange(a + 1, self.position())),
                items_shape(items@) + items_from(d, self.position()).0 == items_from(d, a + 1).0,
                items_from(d, self.position()).1 == items_from(d, a + 1).1,
                self.pending() + items_errors(d, self.position()) == old(self).pending()
                    + items_errors(d, a + 1),
                checkpoint.token_index == a + 1,
                checkpoint.error_index == old(self).pending().len(),
            decreases self.input().len() - self.position(),
        {
            let ghost m0 = self.position();
            let ghost done = items@;
            let ghost pending_before = self.pending();
            proof {
                self.lemma_in_bounds();
                lemma_skip_whitespace_and_semicolons(d, m0);
            }
            self.skip_whitespace_and_semicolons();
            proof {
                self.lemma_in_bounds();
                lemma_embeds_skip(items_tokens(items@), d, a + 1, m0, self.position());
            }
            let ghost m = self.position();
            match self.peek_kind() {
                Some(TokenKind::CURLY_CLOSE) => {
                    let closing = self.consume();
                    proof {
                        assert(items_shape(items@) + seq![] =~= items_shape(items@));
                        assert(self.pending() + seq![] =~= self.pending());
                        let b = StyleBlock { opening, items, closing };
                        lemma_embeds_at(d, a);
                        lemma_embeds_append(seq![opening], items_tokens(items@), d, a, a + 1, m);
                        lemma_embeds_at(d, m);
                        lemma_embeds_append(
                            seq![opening] + items_tokens(items@),
                            opt_seq(closing),
                            d,
                            a,
                            m,
                            m + 1,
                        );
                    }
                    return Some(StyleBlock { opening, items, closing });
                },
                Some(TokenKind::EOF) | None => {
                    self.error_if_clean(checkpoint, ParseErrorReason::UNEXPECTED_EOF);
                    proof {
                        assert(items_shape(items@) + seq![] =~= items_shape(items@));
                        assert(self.pending() + seq![] =~= self.pending());
                        lemma_embeds_at(d, a);
                        lemma_embeds_append(seq![opening], items_tokens(items@), d, a, a + 1, m);
                        assert(seq![opening] + items_tokens(items@) + opt_seq(None)
                            =~= seq![opening] + items_tokens(items@));
                    }
                    return Some(StyleBlock { opening, items, closing: None });
                },
                Some(TokenKind::AT_KEYWORD) => {
                    let rule = self.parse_at_rule().unwrap();
                    let ghost before = items@;
                    items.push(StyleBlockItem::AT_RULE(rule));
                    proof {
                        self.lemma_in_bounds();
                        assert(items@.drop_last() =~= before);
                        lemma_items_step(d, m0, done, items@, self.position());
                        lemma_errors_step(
                            pending_before,
                            self.pending(),
                            item_errors(d, m),
                            items_errors(d, self.position()),
                            items_errors(d, m0),
                        );
                        lemma_embeds_append(
                            items_tokens(before),
                            at_rule_tokens(rule),
                            d,
                            a + 1,
                            m,
                            self.position(),
                        );
                    }
                },
                Some(TokenKind::IDENT) => {
                    let declaration = self.parse_declaration();
                    proof {
                        self.lemma_in_bounds();
                    }
                    match declaration {
                        Some(declaration) => {
                            let ghost before = items@;
                            items.push(StyleBlockItem::DECLARATION(declaration));
                            proof {
                                assert(items@.drop_last() =~= before);
                                lemma_items_step(d, m0, done, items@, self.position());
                                lemma_errors_step(
                                    pending_before,
                                    self.pending(),
                                    item_errors(d, m),
                                    items_errors(d, self.position()),
                                    items_errors(d, m0),
                                );
                                lemma_embeds_append(
                                    items_tokens(before),
                                    declaration_tokens(declaration),
                                    d,
                                    a + 1,
                                    m,
                                    self.position(),
                                );
                            }
                        },
                        None => {
                            proof {
                                lemma_items_step(d, m0, done, items@, self.position());
                                lemma_errors_step(
                                    pending_before,
                                    self.pending(),
                                    item_errors(d, m),
                                    items_errors(d, self.position()),
                                    items_errors(d, m0),
                                );
                                lemma_embeds_skip(items_tokens(items@), d, a + 1, m, self.position());
                            }
                        },
                    }
                },
                Some(_) => {
                    proof {
                        self.lemma_in_bounds();
                    }
                    self.error(ParseErrorReason::UNEXPECTED_TOKEN);
                    proof {
                        self.lemma_in_bounds();
                        assert(self.kind_at(self.position()) != Some(TokenKind::EOF));
                    }
                    self.synchronize_style_block();
                    proof {
                        self.lemma_in_bounds();
                        assert(self.pending() =~= pending_before + item_errors(d, m));
                        lemma_items_step(d, m0, done, items@, self.position());
                        lemma_errors_step(
                            pending_before,
                            self.pending(),
                            item_errors(d, m),
                            items_errors(d, self.position()),
                            items_errors(d, m0),
                        );
                        lemma_embeds_skip(items_tokens(items@), d, a + 1, m, self.position());
                    }
                },
            }
        }
    }


    /// Interprets the prelude of a qualified rule as a selector list and keeps its errors.
    pub fn parse_qualified_rule_selectors(&mut self, prelude: &[ComponentValue]) -> (r: SelectorList)
        requires
            old(self).wf(),
            embeds(cvs_tokens(prelude@), old(self).data()),
        ensures
            final(self).progressed(old(self)),
            final(self).position() == old(self).position(),
            complex_views(r.selectors@) == successes(parts_from(cvs_model(prelude@), 0)),
            final(self).pending() == old(self).pending() + failures(parts_from(cvs_model(prelude@), 0)),
    {
        let result = parse_selector_list(prelude);
        let ParseResult { value, errors } = result;
        let mut errors = errors;
        let ghost before = self.errors@;
        let ghost added = errors@;
        proof {
            lemma_errors_widen(added, cvs_tokens(prelude@), self.data());
        }
        self.errors.append(&mut errors);
        proof {
            assert forall|i: int| 0 <= i < self.errors@.len() implies error_points_into(
                #[trigger] self.errors@[i],
                self.data(),
            ) by {
                if i < before.len() {
                    assert(self.errors@[i] == before[i]);
                } else {
                    assert(self.errors@[i] == added[i - before.len()]);
                }
            }
        }
        value
    }

    /// Parses a qualified rule: a prelude of component values up to a `{` that opens its
    /// style block, or up to `EOF`, where it records an error unless the prelude already did.
    pub fn parse_qualified_rule(&mut self) -> (r: Option<QualifiedRule>)
        requires
            old(self).wf(),
            old(self).kind_at(old(self).position()) != Some(TokenKind::EOF),
        ensures
            final(self).progressed(old(self)),
            final(self).position() > old(self).position(),
            r matches Some(rule) && embeds(
                qualified_rule_tokens(rule),
                old(self).span_data(old(self).position(), final(self).position()),
            ),
            r matches Some(rule) && qualified_rule_shape(rule) == qualified_rule_at(
                old(self).data(),
                old(self).position(),
            ).0,
            final(self).position() == qualified_rule_at(old(self).data(), old(self).position()).1,
            final(self).pending() == old(self).pending() + qualified_rule_errors(
                old(self).data(),
                old(self).position(),
            ),
    {
        proof {
            self.lemma_in_bounds();
        }
        let ghost a = self.position();
        let ghost d = self.data();
        let checkpoint = self.checkpoint();
        let mut prelude: Vec<ComponentValue> = Vec::new();
        let ghost stops = set![TokenKind::CURLY_OPEN];
        proof {
            lemma_embeds_none(d, a, a);
            assert(cvs_model(prelude@) + values_until(d, a, stops).0 =~= values_until(d, a, stops).0);
        }
        loop
            invariant
                self.progressed(old(self)),
                d == self.data(),
                self.position() >= a,
                a == old(self).position(),
                a >= 0,
                self.position() == a ==> prelude@.len() == 0,
                self.position() == a ==> self.kind_at(a) != Some(TokenKind::EOF),
                embeds(cvs_tokens(prelude@), d.subrange(a, self.position())),
                stops == set![TokenKind::CURLY_OPEN],
                cvs_model(prelude@) + values_until(d, self.position(), stops).0 == values_until(
                    d,
                    a,
                    stops,
                ).0,
                values_until(d, self.position(), stops).1 == values_until(d, a, stops).1,
                self.pending() + values_errors(d, self.position(), stops) == old(self).pending()
                    + values_errors(d, a, stops),
                checkpoint.token_index == a,
                checkpoint.error_index == old(self).pending().len(),
            decreases self.input().len() - self.position(),
        {
            proof {
                self.lemma_in_bounds();
                lemma_subrange_embeds(d, a, self.position());
                lemma_embeds_trans(cvs_tokens(prelude@), d.subrange(a, self.position()), d);
            }
            let ghost m = self.position();
            if self.check(TokenKind::CURLY_OPEN) {
                proof {
                    assert(cvs_model(prelude@) + seq![] =~= cvs_model(prelude@));
                    assert(self.pending() + seq![] =~= self.pending());
                }
                let selectors = self.parse_qualified_rule_selectors(prelude.as_slice());
                let block = self.parse_style_block();
                proof {
                    assert(self.pending() =~= old(self).pending() + qualified_rule_errors(d, a));
                }
                proof {
                    lemma_embeds_append(
                        cvs_tokens(prelude@),
                        style_block_tokens(block),
                        d,
                        a,
                        m,
                        self.position(),
                    );
                }
                return Some(QualifiedRule { prelude, selectors, block });
            }
            if self.check(TokenKind::EOF) {
                proof {
                    assert(cvs_model(prelude@) + seq![] =~= cvs_model(prelude@));
                    assert(self.pending() + seq![] =~= self.pending());
                }
                self.error_if_clean(checkpoint, ParseErrorReason::UNEXPECTED_EOF);
                let selectors = self.parse_qualified_rule_selectors(prelude.as_slice());
                proof {
                    assert(self.pending() =~= old(self).pending() + qualified_rule_errors(d, a));
                    let rule = QualifiedRule { prelude, selectors, block: None };
                    assert(qualified_rule_tokens(rule) =~= cvs_tokens(prelude@));
                }
                return Some(QualifiedRule { prelude, selectors, block: None });
            }
            let ghost before = prelude@;
            let ghost pending_before = self.pending();
            let v = self.parse_component_value();
            let v = v.unwrap();
            prelude.push(v);
            proof {
                self.lemma_in_bounds();
                lemma_cvs_tokens_push(before, v);
                lemma_embeds_append(cvs_tokens(before), cv_tokens(v), d, a, m, self.position());
                lemma_values_step(d, m, stops, before, v, self.position());
                lemma_errors_step(
                    pending_before,
                    self.pending(),
                    value_errors(d, m),
                    values_errors(d, self.position(), stops),
                    values_errors(d, m, stops),
                );
            }
        }
    }

    /// Hands out the recorded errors.
    fn take_errors(&mut self) -> (errors: Vec<ParseError>)
        requires
            old(self).wf(),
        ensures
            final(self).wf(),
            final(self).input() == old(self).input(),
            final(self).position() == old(self).position(),
            final(self).pending().len() == 0,
            errors@ == old(self).pending(),
    {
        let mut errors: Vec<ParseError> = Vec::new();
        std::mem::swap(&mut errors, &mut self.errors);
        errors
    }

    /// Parses the rules of a stylesheet up to `EOF`, skipping whitespace between them, and
    /// hands out every error recorded.
    pub fn parse_stylesheet(&mut self) -> (r: ParseResult<Stylesheet>)
        requires
            old(self).wf(),
        ensures
            final(self).wf(),
            final(self).input() == old(self).input(),
            final(self).position() >= old(self).position(),
            final(self).kind_at(final(self).position()) == Some(TokenKind::EOF),
            final(self).pending().len() == 0,
            r.errors@.len() >= old(self).pending().len(),
            forall|i: int|
                0 <= i < old(self).pending().len() ==> #[trigger] r.errors@[i]
                    == old(self).pending()[i],
            errors_point_into(r.errors@, old(self).data()),
            embeds(
                stylesheet_tokens(r.value),
                old(self).span_data(old(self).position(), final(self).position()),
            ),
            rules_shape(r.value.rule_list@) == rules_from(old(self).data(), old(self).position()).0,
            final(self).position() == rules_from(old(self).data(), old(self).position()).1,
            r.errors@ == old(self).pending() + rules_errors(old(self).data(), old(self).position()),
            old(self).kind_at(old(self).position()) == Some(TokenKind::EOF) ==> {
                &&& r.value.rule_list@.len() == 0
                &&& r.errors@ == old(self).pending()
                &&& final(self).position() == old(self).position()
            },
    {
        let ghost a = self.position();
        let ghost d = self.data();
        let mut rule_list: Vec<Rule> = Vec::new();
        proof {
            self.lemma_in_bounds();
            lemma_embeds_none(d, a, a);
            assert(rules_shape(rule_list@) + rules_from(d, a).0 =~= rules_from(d, a).0);
        }
        while !self.check(TokenKind::EOF)
            invariant
                self.progressed(old(self)),
                d == self.data(),
                self.position() >= a,
                a == old(self).position(),
                a >= 0,
                embeds(rules_tokens(rule_list@), d.subrange(a, self.position())),
                rules_shape(rule_list@) + rules_from(d, self.position()).0 == rules_from(d, a).0,
                rules_from(d, self.position()).1 == rules_from(d, a).1,
                self.pending() + rules_errors(d, self.position()) == old(self).pending()
                    + rules_errors(d, a),
            decreases self.input().len() - self.position(),
        {
            proof {
                self.lemma_in_bounds();
            }
            let ghost m = self.position();
            let ghost pending_before = self.pending();
            if self.match_kind(TokenKind::WHITESPACE) {
                proof {
                    lemma_embeds_skip(rules_tokens(rule_list@), d, a, m, self.position());
                }
                continue ;
            }
            let rule = if self.check(TokenKind::AT_KEYWORD) {
                match self.parse_at_rule() {
                    Some(r) => Some(Rule::AT_RULE(r)),
                    None => None,
                }
            } else {
                match self.parse_qualified_rule() {
                    Some(r) => Some(Rule::QUALIFIED_RULE(r)),
                    None => None,
                }
            };
            proof {
                self.lemma_in_bounds();
                let x = if d[m].kind == TokenKind::AT_KEYWORD {
                    at_rule_errors(d, m)
                } else {
                    qualified_rule_errors(d, m)
                };
                lemma_errors_step(
                    pending_before,
                    self.pending(),
                    x,
                    rules_errors(d, self.position()),
                    rules_errors(d, m),
                );
            }
            if let Some(rule) = rule {
                let ghost before = rule_list@;
                rule_list.push(rule);
                proof {
                    assert(rule_list@.drop_last() =~= before);
                    let rest = rules_from(d, self.position()).0;
                    assert(rules_shape(rule_list@) =~= rules_shape(before).push(rule_shape(rule)));
                    assert(rules_shape(before).push(rule_shape(rule)) + rest =~= rules_shape(before)
                        + (seq![rule_shape(rule)] + rest));
                    lemma_embeds_append(rules_tokens(before), rule_tokens(rule), d, a, m, self.position());
                }
            } else {
                proof {
                    lemma_embeds_skip(rules_tokens(rule_list@), d, a, m, self.position());
                }
            }
        }
        proof {
            assert(rules_shape(rule_list@) + seq![] =~= rules_shape(rule_list@));
            assert(self.pending() + seq![] =~= self.pending());
        }
        let errors = self.take_errors();
        ParseResult { value: Stylesheet { rule_list }, errors }
    }

    /// Parses a list of declarations up to `}` or `EOF`, skipping whitespace and semicolons;
    /// anything that does not start a declaration is an error, skipped up to the next `;`.
    pub fn parse_declaration_list(&mut self) -> (r: ParseResult<Vec<Declaration>>)
        requires
            old(self).wf(),
        ensures
            final(self).wf(),
            final(self).input() == old(self).input(),
            final(self).position() >= old(self).position(),
            final(self).kind_at(final(self).position()) == Some(TokenKind::EOF)
                || final(self).kind_at(final(self).position()) == Some(TokenKind::CURLY_CLOSE),
            final(self).pending().len() == 0,
            r.errors@.len() >= old(self).pending().len(),
            forall|i: int|
                0 <= i < old(self).pending().len() ==> #[trigger] r.errors@[i]
                    == old(self).pending()[i],
            errors_point_into(r.errors@, old(self).data()),
            embeds(
                declarations_tokens(r.value@),
                old(self).span_data(old(self).position(), final(self).position()),
            ),
            declarations_shape(r.value@) == declarations_from(old(self).data(), old(self).position()).0,
            final(self).position() == declarations_from(old(self).data(), old(self).position()).1,
            r.errors@ == old(self).pending() + declarations_errors(
                old(self).data(),
                old(self).position(),
            ),
    {
        let ghost a = self.position();
        let ghost d = self.data();
        let mut declarations: Vec<Declaration> = Vec::new();
        proof {
            self.lemma_in_bounds();
            lemma_embeds_none(d, a, a);
            assert(declarations_shape(declarations@) + declarations_from(d, a).0 =~= declarations_from(
                d,
                a,
            ).0);
        }
        loop
            invariant_except_break
                self.progressed(old(self)),
                d == self.data(),
                self.position() >= a,
                a == old(self).position(),
                a >= 0,
                embeds(declarations_tokens(declarations@), d.subrange(a, self.position())),
                declarations_shape(declarations@) + declarations_from(d, self.position()).0
                    == declarations_from(d, a).0,
                declarations_from(d, self.position()).1 == declarations_from(d, a).1,
                self.pending() + declarations_errors(d, self.position()) == old(self).pending()
                    + declarations_errors(d, a),
            ensures
                self.progressed(old(self)),
                self.position() >= a,
                self.kind_at(self.position()) == Some(TokenKind::EOF) || self.kind_at(
                    self.position(),
                ) == Some(TokenKind::CURLY_CLOSE),
                embeds(declarations_tokens(declarations@), d.subrange(a, self.position())),
                declarations_shape(declarations@) == declarations_from(d, a).0,
                self.position() == declarations_from(d, a).1,
                self.pending() == old(self).pending() + declarations_errors(d, a),
            decreases self.input().len() - self.position(),
        {
            let ghost m0 = self.position();
            let ghost done = declarations@;
            let ghost pending_before = self.pending();
            proof {
                self.lemma_in_bounds();
                lemma_skip_whitespace_and_semicolons(d, m0);
            }
            self.skip_whitespace_and_semicolons();
            proof {
                self.lemma_in_bounds();
                lemma_embeds_skip(declarations_tokens(declarations@), d, a, m0, self.position());
            }
            let ghost m = self.position();
            match self.peek_kind() {
                Some(TokenKind::EOF) | Some(TokenKind::CURLY_CLOSE) | None => {
                    proof {
                        assert(declarations_shape(declarations@) + seq![] =~= declarations_shape(
                            declarations@,
                        ));
                        assert(self.pending() + seq![] =~= self.pending());
                    }
                    break ;
                },
                _ => {},
            }
            if self.check(TokenKind::IDENT) {
                let declaration = self.parse_declaration();
                proof {
                    self.lemma_in_bounds();
                    lemma_errors_step(
                        pending_before,
                        self.pending(),
                        declaration_errors(d, m),
                        declarations_errors(d, self.position()),
                        declarations_errors(d, m0),
                    );
                }
                if let Some(declaration) = declaration {
                    let ghost before = declarations@;
                    declarations.push(declaration);
                    proof {
                        assert(declarations@.drop_last() =~= before);
                        let rest = declarations_from(d, self.position()).0;
                        let x = declaration_shape(declaration);
                        assert(declarations_shape(declarations@) =~= declarations_shape(before).push(x));
                        assert(declarations_shape(before).push(x) + rest =~= declarations_shape(before)
                            + (seq![x] + rest));
                        lemma_embeds_append(
                            declarations_tokens(before),
                            declaration_tokens(declaration),
                            d,
                            a,
                            m,
                            self.position(),
                        );
                    }
                } else {
                    proof {
                        lemma_embeds_skip(declarations_tokens(declarations@), d, a, m, self.position());
                    }
                }
            } else {
                proof {
                    self.lemma_in_bounds();
                }
                self.error(ParseErrorReason::UNEXPECTED_TOKEN);
                self.synchronize_declaration();
                proof {
                    self.lemma_in_bounds();
                    let e = seq![parse_error_at(d, m, ParseErrorReason::UNEXPECTED_TOKEN)];
                    assert(self.pending() =~= pending_before + e);
                    lemma_errors_step(
                        pending_before,
                        self.pending(),
                        e,
                        declarations_errors(d, self.position()),
                        declarations_errors(d, m0),
                    );
                    lemma_embeds_skip(declarations_tokens(declarations@), d, a, m, self.position());
                }
            }
        }
        let errors = self.take_errors();
        ParseResult { value: declarations, errors }
    }
}

/// The model of a list of values is the list of their models.
pub proof fn lemma_cvs_model_index(s: Seq<ComponentValue>)
    ensures
        cvs_model(s).len() == s.len(),
        forall|i: int| 0 <= i < s.len() ==> #[trigger] cvs_model(s)[i] == cv_model(s[i]),
    decreases s.len(),
{
    if s.len() > 0 {
        lemma_cvs_model_index(s.drop_last());
    }
}

/// The model of a list, from its values' models.
pub proof fn lemma_cvs_model_ext(s: Seq<ComponentValue>, m: Seq<ValueTree>)
    requires
        m.len() == s.len(),
        forall|i: int| 0 <= i < s.len() ==> #[trigger] m[i] == cv_model(s[i]),
    ensures
        cvs_model(s) == m,
{
    lemma_cvs_model_index(s);
    assert(cvs_model(s) =~= m);
}

/// Whitespace at the end does not change what trimming leaves.
pub proof fn lemma_trim_whitespace_tail(a: Seq<ValueTree>, tail: Seq<ValueTree>)
    requires
        forall|j: int| 0 <= j < tail.len() ==> is_whitespace_tree(#[trigger] tail[j]),
    ensures
        trim_whitespace(a + tail) == trim_whitespace(a),
    decreases tail.len(),
{
    if tail.len() > 0 {
        assert((a + tail).drop_last() =~= a + tail.drop_last());
        assert((a + tail).last() == tail[tail.len() - 1]);
        lemma_trim_whitespace_tail(a, tail.drop_last());
    } else {
        assert(a + tail =~= a);
    }
}

/// Recording the errors `x` of one more part, where the errors still to come are `x` and then
/// `rest`, leaves `rest` to come.
pub proof fn lemma_errors_step(
    before: Seq<ParseError>,
    after: Seq<ParseError>,
    x: Seq<ParseError>,
    rest: Seq<ParseError>,
    all: Seq<ParseError>,
)
    requires
        after == before + x,
        all == x + rest,
    ensures
        after + rest == before + all,
{
    assert(after + rest =~= before + all);
}

pub proof fn lemma_cvs_model_push(s: Seq<ComponentValue>, cv: ComponentValue)
    ensures
        cvs_model(s.push(cv)) == cvs_model(s).push(cv_model(cv)),
{
    assert(s.push(cv).drop_last() =~= s);
}

/// One more value of a list that runs to `close`: the values so far and those from `m` on
/// are the values so far with the one at `m`, and those after it.
pub proof fn lemma_values_step(
    d: Seq<TokenData>,
    m: int,
    stops: Set<TokenKind>,
    done: Seq<ComponentValue>,
    v: ComponentValue,
    next: int,
)
    requires
        0 <= m < next <= d.len(),
        !stops.contains(d[m].kind),
        d[m].kind != TokenKind::EOF,
        cv_model(v) == value_at(d, m).0,
        next == value_at(d, m).1,
    ensures
        cvs_model(done.push(v)) + values_until(d, next, stops).0 == cvs_model(done)
            + values_until(d, m, stops).0,
        values_until(d, next, stops).1 == values_until(d, m, stops).1,
{
    lemma_cvs_model_push(done, v);
    assert(cvs_model(done).push(cv_model(v)) + values_until(d, next, stops).0 =~= cvs_model(done)
        + (seq![cv_model(v)] + values_until(d, next, stops).0));
}

pub proof fn lemma_cvs_tokens_push(s: Seq<ComponentValue>, cv: ComponentValue)
    ensures
        cvs_tokens(s.push(cv)) == cvs_tokens(s) + cv_tokens(cv),
{
    assert(s.push(cv).drop_last() =~= s);
}

pub proof fn lemma_cvs_tokens_concat(s: Seq<ComponentValue>, t: Seq<ComponentValue>)
    ensures
        cvs_tokens(s + t) == cvs_tokens(s) + cvs_tokens(t),
    decreases t.len(),
{
    if t.len() == 0 {
        assert(s + t =~= s);
        assert(cvs_tokens(s) + cvs_tokens(t) =~= cvs_tokens(s));
    } else {
        lemma_cvs_tokens_concat(s, t.drop_last());
        assert((s + t).drop_last() =~= s + t.drop_last());
        assert((s + t).last() == t.last());
        assert(cvs_tokens(s) + cvs_tokens(t.drop_last()) + cv_tokens(t.last()) =~= cvs_tokens(s)
            + (cvs_tokens(t.drop_last()) + cv_tokens(t.last())));
    }
}

/// `ys` split at `m`.
pub proof fn lemma_split<T>(ys: Seq<T>, a: int, m: int, b: int)
    requires
        0 <= a <= m <= b <= ys.len(),
    ensures
        ys.subrange(a, m) + ys.subrange(m, b) == ys.subrange(a, b),
{
    assert(ys.subrange(a, m) + ys.subrange(m, b) =~= ys.subrange(a, b));
}

/// Appending what the span `m..b` holds to what `a..m` holds.
pub proof fn lemma_embeds_append<T>(xs: Seq<T>, x2: Seq<T>, ys: Seq<T>, a: int, m: int, b: int)
    requires
        0 <= a <= m <= b <= ys.len(),
        embeds(xs, ys.subrange(a, m)),
        embeds(x2, ys.subrange(m, b)),
    ensures
        embeds(xs + x2, ys.subrange(a, b)),
{
    lemma_embeds_concat(xs, ys.subrange(a, m), x2, ys.subrange(m, b));
    lemma_split(ys, a, m, b);
}

/// One element taken at position `a`.
pub proof fn lemma_embeds_at<T>(ys: Seq<T>, a: int)
    requires
        0 <= a < ys.len(),
    ensures
        embeds(seq![ys[a]], ys.subrange(a, a + 1)),
{
    lemma_embeds_single(ys[a], ys.subrange(a, a + 1), 0);
}

/// Nothing taken from any span.
pub proof fn lemma_embeds_none<T>(ys: Seq<T>, a: int, b: int)
    requires
        0 <= a <= b <= ys.len(),
    ensures
        embeds(Seq::<T>::empty(), ys.subrange(a, b)),
{
    lemma_embeds_empty(ys.subrange(a, b));
}

/// Skipping the tokens of `m..b`.
pub proof fn lemma_embeds_skip<T>(xs: Seq<T>, ys: Seq<T>, a: int, m: int, b: int)
    requires
        0 <= a <= m <= b <= ys.len(),
        embeds(xs, ys.subrange(a, m)),
    ensures
        embeds(xs, ys.subrange(a, b)),
{
    lemma_embeds_none(ys, m, b);
    lemma_embeds_append(xs, Seq::<T>::empty(), ys, a, m, b);
    assert(xs + Seq::<T>::empty() =~= xs);
}

/// Skipping the tokens of `a..m`.
pub proof fn lemma_embeds_skip_front<T>(xs: Seq<T>, ys: Seq<T>, a: int, m: int, b: int)
    requires
        0 <= a <= m <= b <= ys.len(),
        embeds(xs, ys.subrange(m, b)),
    ensures
        embeds(xs, ys.subrange(a, b)),
{
    lemma_embeds_none(ys, a, m);
    lemma_embeds_append(Seq::<T>::empty(), xs, ys, a, m, b);
    assert(Seq::<T>::empty() + xs =~= xs);
}

pub proof fn lemma_remove_keeps_order(s: Seq<ComponentValue>, i: int)
    requires
        0 <= i < s.len(),
    ensures
        embeds(cvs_tokens(s.remove(i)), cvs_tokens(s)),
{
    let a = s.take(i);
    let b = s.skip(i + 1);
    assert(s =~= a + seq![s[i]] + b);
    assert(s.remove(i) =~= a + b);
    lemma_cvs_tokens_concat(a, b);
    lemma_cvs_tokens_concat(a + seq![s[i]], b);
    lemma_cvs_tokens_concat(a, seq![s[i]]);
    assert(cvs_tokens(seq![s[i]]) == cv_tokens(s[i])) by {
        assert(seq![s[i]].drop_last() =~= Seq::<ComponentValue>::empty());
        assert(cvs_tokens(Seq::<ComponentValue>::empty()) =~= Seq::<TokenData>::empty());
    }
    crate::subsequence::lemma_embeds_refl(cvs_tokens(a));
    crate::subsequence::lemma_embeds_refl(cvs_tokens(b));
    lemma_embeds_empty(cv_tokens(s[i]));
    lemma_embeds_concat(
        cvs_tokens(a),
        cvs_tokens(a),
        Seq::<TokenData>::empty(),
        cv_tokens(s[i]),
    );
    assert(cvs_tokens(a) + Seq::<TokenData>::empty() =~= cvs_tokens(a));
    lemma_embeds_concat(cvs_tokens(a), cvs_tokens(a) + cv_tokens(s[i]), cvs_tokens(b), cvs_tokens(b));
}

pub proof fn lemma_drop_last_keeps_order(s: Seq<ComponentValue>)
    requires
        s.len() > 0,
    ensures
        embeds(cvs_tokens(s.drop_last()), cvs_tokens(s)),
{
    crate::subsequence::lemma_embeds_refl(cvs_tokens(s.drop_last()));
    lemma_embeds_extend(
        cvs_tokens(s.drop_last()),
        cvs_tokens(s.drop_last()),
        Seq::<TokenData>::empty(),
        cv_tokens(s.last()),
    );
    assert(Seq::<TokenData>::empty() + cvs_tokens(s.drop_last()) =~= cvs_tokens(s.drop_last()));
}

/// An error that points into a subsequence points into the whole.
pub proof fn lemma_errors_widen(errors: Seq<ParseError>, xs: Seq<TokenData>, ys: Seq<TokenData>)
    requires
        errors_point_into(errors, xs),
        embeds(xs, ys),
    ensures
        errors_point_into(errors, ys),
{
    let f = choose|f: spec_fn(int) -> int| crate::subsequence::embeds_with(xs, ys, f);
    assert forall|i: int| 0 <= i < errors.len() implies error_points_into(
        #[trigger] errors[i],
        ys,
    ) by {
        let e = errors[i];
        assert(error_points_into(e, xs));
        if exists|k: int| 0 <= k < xs.len() && e.line == xs[k].line && e.span == xs[k].span {
            let k = choose|k: int| 0 <= k < xs.len() && e.line == xs[k].line && e.span == xs[k].span;
            assert(0 <= f(k) < ys.len() && xs[k] == ys[f(k)]);
        }
    }
}

pub proof fn lemma_subrange_embeds<T>(ys: Seq<T>, a: int, b: int)
    requires
        0 <= a <= b <= ys.len(),
    ensures
        embeds(ys.subrange(a, b), ys),
{
    crate::subsequence::lemma_embeds_refl(ys.subrange(a, b));
    lemma_embeds_extend(ys.subrange(a, b), ys.subrange(a, b), ys.subrange(0, a), ys.subrange(b, ys.len() as int));
    assert(ys.subrange(0, a) + ys.subrange(a, b) + ys.subrange(b, ys.len() as int) =~= ys);
}
} // verus!
