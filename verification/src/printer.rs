use vstd::prelude::*;
use vstd::string::StringExecFns;
use crate::errors::span_text;
use crate::parser::{
    AtRule, ComponentValue, Declaration, Function, QualifiedRule, Rule, SimpleBlock, StyleBlock,
    StyleBlockItem, Stylesheet, TokenData,
};
use crate::selector::{
    AttributeMatcher, AttributeSelector, AttributeValue, Combinator, ComplexSelector, ComplexSelectorComponent,
    ComplexSelectorUnit, CompoundSelector, NamespaceName, NamespacePrefix, PseudoClassSelector,
    PseudoCompoundSelector, PseudoElementSelector, QualifiedName, SelectorList, SubclassSelector,
    TypeSelector,
};
use crate::text::{decimal, push_decimal};
use crate::token::TokenKind;
use crate::visitor::Visitor;

verus! {

// ---------------------------------------------------------------------------------------------
// The text of the tree.
// ---------------------------------------------------------------------------------------------

/// `char`'s `Debug` text: the code point quoted, escaped where needed.
pub uninterp spec fn debug_char(c: char) -> Seq<char>;

/// Appends the `Debug` text of a code point (`format!("{:?}", c)`): a printable ASCII code
/// point other than a quote or a backslash stands between single quotes as it is; a single
/// quote, a backslash, a tab, a carriage return and a line feed are escaped with a backslash
/// (`'\''`, `'\\'`, `'\t'`, `'\r'`, `'\n'`). How other code points are escaped is left
/// unsaid.
#[verifier::external_body]
fn push_debug_char(out: &mut String, c: char)
    ensures
        final(out)@ == old(out)@ + debug_char(c),
        (' ' <= c <= '~' && c != '\'' && c != '\\') ==> final(out)@ == old(out)@ + seq!['\'', c, '\''],
        c == '\'' ==> final(out)@ == old(out)@ + seq!['\'', '\\', '\'', '\''],
        c == '\\' ==> final(out)@ == old(out)@ + seq!['\'', '\\', '\\', '\''],
        c == '\t' ==> final(out)@ == old(out)@ + seq!['\'', '\\', 't', '\''],
        c == '\r' ==> final(out)@ == old(out)@ + seq!['\'', '\\', 'r', '\''],
        c == '\n' ==> final(out)@ == old(out)@ + seq!['\'', '\\', 'n', '\''],
{
    out.push_str(&format!("{:?}", c));
}

/// A token kind as written by its derived `Debug`.
pub open spec fn kind_debug(k: TokenKind) -> Seq<char> {
    match k {
        TokenKind::CURLY_OPEN => "CURLY_OPEN"@,
        TokenKind::CURLY_CLOSE => "CURLY_CLOSE"@,
        TokenKind::PAREN_OPEN => "PAREN_OPEN"@,
        TokenKind::PAREN_CLOSE => "PAREN_CLOSE"@,
        TokenKind::BRACKET_OPEN => "BRACKET_OPEN"@,
        TokenKind::BRACKET_CLOSE => "BRACKET_CLOSE"@,
        TokenKind::SEMICOLON => "SEMICOLON"@,
        TokenKind::COMMA => "COMMA"@,
        TokenKind::COLON => "COLON"@,
        TokenKind::DOT => "DOT"@,
        TokenKind::PLUS => "PLUS"@,
        TokenKind::HYPHEN => "HYPHEN"@,
        TokenKind::STAR => "STAR"@,
        TokenKind::SLASH => "SLASH"@,
        TokenKind::EQUALS => "EQUALS"@,
        TokenKind::GREATER_THAN => "GREATER_THAN"@,
        TokenKind::LESS_THAN => "LESS_THAN"@,
        TokenKind::TILDE => "TILDE"@,
        TokenKind::PIPE => "PIPE"@,
        TokenKind::CARET => "CARET"@,
        TokenKind::DOLLAR => "DOLLAR"@,
        TokenKind::AMPERSAND => "AMPERSAND"@,
        TokenKind::BANG => "BANG"@,
        TokenKind::QUESTION => "QUESTION"@,
        TokenKind::AT => "AT"@,
        TokenKind::PERCENT => "PERCENT"@,
        TokenKind::HYPHEN_DOUBLE => "HYPHEN_DOUBLE"@,
        TokenKind::COLON_DOUBLE => "COLON_DOUBLE"@,
        TokenKind::TILDE_EQUAL => "TILDE_EQUAL"@,
        TokenKind::PIPE_EQUAL => "PIPE_EQUAL"@,
        TokenKind::CARET_EQUAL => "CARET_EQUAL"@,
        TokenKind::DOLLAR_EQUAL => "DOLLAR_EQUAL"@,
        TokenKind::STAR_EQUAL => "STAR_EQUAL"@,
        TokenKind::CDO => "CDO"@,
        TokenKind::CDC => "CDC"@,
        TokenKind::IDENT => "IDENT"@,
        TokenKind::FUNCTION => "FUNCTION"@,
        TokenKind::AT_KEYWORD => "AT_KEYWORD"@,
        TokenKind::HASH_TOKEN => "HASH_TOKEN"@,
        TokenKind::ID_HASH => "ID_HASH"@,
        TokenKind::GENERIC_HASH => "GENERIC_HASH"@,
        TokenKind::STRING => "STRING"@,
        TokenKind::NUMBER => "NUMBER"@,
        TokenKind::PERCENTAGE => "PERCENTAGE"@,
        TokenKind::DIMENSION => "DIMENSION"@,
        TokenKind::WHITESPACE => "WHITESPACE"@,
        TokenKind::HEX_TOKEN => "HEX_TOKEN"@,
        TokenKind::ESCAPE => "ESCAPE"@,
        TokenKind::URL => "URL"@,
        TokenKind::BAD_STRING => "BAD_STRING"@,
        TokenKind::BAD_URL => "BAD_URL"@,
        TokenKind::IMPORTANT_TOKEN => "IMPORTANT_TOKEN"@,
        TokenKind::DIGIT_TOKEN => "DIGIT_TOKEN"@,
        TokenKind::EOF => "EOF"@,
        TokenKind::DELIM(c) => "DELIM("@ + debug_char(c) + ")"@,
    }
}

/// Two spaces per level.
pub open spec fn indent(depth: nat) -> Seq<char>
    decreases depth,
{
    if depth == 0 {
        seq![]
    } else {
        indent((depth - 1) as nat) + "  "@
    }
}

/// The line of one node.
pub open spec fn node_line(depth: nat, label: Seq<char>) -> Seq<char> {
    indent(depth) + "(__ "@ + label + "\n"@
}

pub open spec fn bool_text(b: bool) -> Seq<char> {
    if b {
        "true"@
    } else {
        "false"@
    }
}

pub open spec fn token_label(t: TokenData) -> Seq<char> {
    "Token::"@ + kind_debug(t.kind) + " (line="@ + decimal(t.line as nat) + ", span="@ + span_text(
        t.span,
    ) + ")"@
}

pub open spec fn token_text(t: TokenData, depth: nat) -> Seq<char> {
    node_line(depth, token_label(t))
}

pub open spec fn closing_text(t: Option<TokenData>, depth: nat) -> Seq<char> {
    match t {
        Some(t) => token_text(t, depth),
        None => seq![],
    }
}

pub open spec fn value_label(cv: ComponentValue) -> Seq<char> {
    match cv {
        ComponentValue::PRESERVED(_) => "ComponentValue::PRESERVED"@,
        ComponentValue::SIMPLE_BLOCK(_) => "ComponentValue::SIMPLE_BLOCK"@,
        ComponentValue::FUNCTION(_) => "ComponentValue::FUNCTION"@,
    }
}

/// The tree of a component value at `depth`.
pub open spec fn value_text(cv: ComponentValue, depth: nat) -> Seq<char>
    decreases cv, 1nat,
{
    node_line(depth, value_label(cv)) + match cv {
        ComponentValue::PRESERVED(t) => token_text(t, depth + 1),
        ComponentValue::SIMPLE_BLOCK(b) => block_text(b, depth + 1),
        ComponentValue::FUNCTION(f) => function_text(f, depth + 1),
    }
}

/// The tree of a function at `depth`.
pub open spec fn function_text(f: Function, depth: nat) -> Seq<char>
    decreases f, 0nat,
{
    node_line(depth, "Function"@) + token_text(f.name, depth + 1) + values_text(f.values@, depth + 1)
        + closing_text(f.closing, depth + 1)
}

/// The tree of a simple block at `depth`.
pub open spec fn block_text(b: SimpleBlock, depth: nat) -> Seq<char>
    decreases b, 0nat,
{
    node_line(depth, "SimpleBlock ("@ + kind_debug(b.opening.kind) + ")"@) + token_text(
        b.opening,
        depth + 1,
    ) + values_text(b.values@, depth + 1) + closing_text(b.closing, depth + 1)
}

/// The trees of component values, one after the other.
pub open spec fn values_text(s: Seq<ComponentValue>, depth: nat) -> Seq<char>
    decreases s, 0nat,
{
    if s.len() == 0 {
        seq![]
    } else {
        values_text(s.drop_last(), depth) + value_text(s.last(), depth)
    }
}

#[verifier::opaque]
pub open spec fn at_rule_text(r: AtRule, depth: nat) -> Seq<char> {
    node_line(depth, "AtRule"@) + token_text(r.name, depth + 1) + values_text(r.prelude@, depth + 1)
        + match r.block {
        Some(b) => block_text(b, depth + 1),
        None => seq![],
    }
}

#[verifier::opaque]
pub open spec fn declaration_text(d: Declaration, depth: nat) -> Seq<char> {
    node_line(depth, "Declaration (important="@ + bool_text(d.important) + ")"@) + token_text(
        d.name,
        depth + 1,
    ) + values_text(d.value@, depth + 1)
}

#[verifier::opaque]
pub open spec fn item_text(i: StyleBlockItem, depth: nat) -> Seq<char> {
    match i {
        StyleBlockItem::DECLARATION(d) => node_line(depth, "StyleBlockItem::DECLARATION"@)
            + declaration_text(d, depth + 1),
        StyleBlockItem::AT_RULE(r) => node_line(depth, "StyleBlockItem::AT_RULE"@) + at_rule_text(
            r,
            depth + 1,
        ),
    }
}

pub open spec fn items_text(s: Seq<StyleBlockItem>, depth: nat) -> Seq<char>
    decreases s.len(),
{
    if s.len() == 0 {
        seq![]
    } else {
        items_text(s.drop_last(), depth) + item_text(s.last(), depth)
    }
}

#[verifier::opaque]
pub open spec fn style_block_text(b: StyleBlock, depth: nat) -> Seq<char> {
    node_line(depth, "StyleBlock"@) + token_text(b.opening, depth + 1) + items_text(
        b.items@,
        depth + 1,
    ) + closing_text(b.closing, depth + 1)
}

#[verifier::opaque]
pub open spec fn namespace_text(n: NamespacePrefix, depth: nat) -> Seq<char> {
    node_line(depth, "NamespacePrefix"@) + match n.prefix {
        Some(NamespaceName::IDENT(t)) => token_text(t, depth + 1),
        Some(NamespaceName::STAR(t)) => token_text(t, depth + 1),
        None => seq![],
    } + token_text(n.separator, depth + 1)
}

pub open spec fn namespace_opt_text(n: Option<NamespacePrefix>, depth: nat) -> Seq<char> {
    match n {
        Some(n) => namespace_text(n, depth),
        None => seq![],
    }
}

#[verifier::opaque]
pub open spec fn qualified_name_text(q: QualifiedName, depth: nat) -> Seq<char> {
    node_line(depth, "QualifiedName"@) + namespace_opt_text(q.namespace, depth + 1) + token_text(
        q.name,
        depth + 1,
    )
}

#[verifier::opaque]
pub open spec fn type_selector_text(t: TypeSelector, depth: nat) -> Seq<char> {
    match t {
        TypeSelector::QUALIFIED_NAME(q) => node_line(depth, "TypeSelector::QUALIFIED_NAME"@)
            + qualified_name_text(q, depth + 1),
        TypeSelector::UNIVERSAL { namespace, star } => node_line(
            depth,
            "TypeSelector::UNIVERSAL"@,
        ) + namespace_opt_text(namespace, depth + 1) + token_text(star, depth + 1),
    }
}

#[verifier::opaque]
pub open spec fn pseudo_class_text(p: PseudoClassSelector, depth: nat) -> Seq<char> {
    node_line(depth, "PseudoClassSelector"@) + token_text(p.colon, depth + 1) + token_text(
        p.name,
        depth + 1,
    ) + match p.arguments {
        Some(a) => values_text(a.values@, depth + 1) + token_text(a.closing, depth + 1),
        None => seq![],
    }
}

pub open spec fn matcher_text(m: Option<AttributeMatcher>, depth: nat) -> Seq<char> {
    match m {
        Some(m) => closing_text(m.operator, depth) + token_text(m.equals, depth),
        None => seq![],
    }
}

pub open spec fn attribute_value_text(v: Option<AttributeValue>, depth: nat) -> Seq<char> {
    match v {
        Some(AttributeValue::STRING(t)) => token_text(t, depth),
        Some(AttributeValue::IDENT(t)) => token_text(t, depth),
        None => seq![],
    }
}

#[verifier::opaque]
pub open spec fn attribute_text(a: AttributeSelector, depth: nat) -> Seq<char> {
    node_line(depth, "AttributeSelector"@) + token_text(a.opening, depth + 1) + qualified_name_text(
        a.name,
        depth + 1,
    ) + matcher_text(a.matcher, depth + 1) + attribute_value_text(a.value, depth + 1) + closing_text(
        a.modifier,
        depth + 1,
    ) + token_text(a.closing, depth + 1)
}

#[verifier::opaque]
pub open spec fn subclass_text(s: SubclassSelector, depth: nat) -> Seq<char> {
    match s {
        SubclassSelector::ID(i) => node_line(depth, "SubclassSelector::ID"@) + token_text(
            i.hash,
            depth + 1,
        ),
        SubclassSelector::CLASS(c) => node_line(depth, "SubclassSelector::CLASS"@) + token_text(
            c.dot,
            depth + 1,
        ) + token_text(c.name, depth + 1),
        SubclassSelector::ATTRIBUTE(a) => node_line(depth, "SubclassSelector::ATTRIBUTE"@)
            + attribute_text(a, depth + 1),
        SubclassSelector::PSEUDO_CLASS(p) => node_line(depth, "SubclassSelector::PSEUDO_CLASS"@)
            + pseudo_class_text(p, depth + 1),
    }
}

pub open spec fn subclasses_text(s: Seq<SubclassSelector>, depth: nat) -> Seq<char>
    decreases s.len(),
{
    if s.len() == 0 {
        seq![]
    } else {
        subclasses_text(s.drop_last(), depth) + subclass_text(s.last(), depth)
    }
}

#[verifier::opaque]
pub open spec fn compound_text(c: CompoundSelector, depth: nat) -> Seq<char> {
    node_line(depth, "CompoundSelector"@) + match c.type_selector {
        Some(t) => type_selector_text(t, depth + 1),
        None => seq![],
    } + subclasses_text(c.subclass_selectors@, depth + 1)
}

#[verifier::opaque]
pub open spec fn pseudo_element_text(e: PseudoElementSelector, depth: nat) -> Seq<char> {
    node_line(depth, "PseudoElementSelector"@) + token_text(e.first_colon, depth + 1) + closing_text(
        e.second_colon,
        depth + 1,
    ) + token_text(e.name, depth + 1) + match e.arguments {
        Some(a) => values_text(a.values@, depth + 1) + token_text(a.closing, depth + 1),
        None => seq![],
    }
}

pub open spec fn pseudo_classes_text(s: Seq<PseudoClassSelector>, depth: nat) -> Seq<char>
    decreases s.len(),
{
    if s.len() == 0 {
        seq![]
    } else {
        pseudo_classes_text(s.drop_last(), depth) + pseudo_class_text(s.last(), depth)
    }
}

#[verifier::opaque]
pub open spec fn pseudo_compound_text(p: PseudoCompoundSelector, depth: nat) -> Seq<char> {
    node_line(depth, "PseudoCompoundSelector"@) + pseudo_element_text(p.pseudo_element, depth + 1)
        + pseudo_classes_text(p.pseudo_classes@, depth + 1)
}

pub open spec fn pseudo_compounds_text(s: Seq<PseudoCompoundSelector>, depth: nat) -> Seq<char>
    decreases s.len(),
{
    if s.len() == 0 {
        seq![]
    } else {
        pseudo_compounds_text(s.drop_last(), depth) + pseudo_compound_text(s.last(), depth)
    }
}

#[verifier::opaque]
pub open spec fn unit_text(u: ComplexSelectorUnit, depth: nat) -> Seq<char> {
    node_line(depth, "ComplexSelectorUnit"@) + match u.compound {
        Some(c) => compound_text(c, depth + 1),
        None => seq![],
    } + pseudo_compounds_text(u.pseudo_compounds@, depth + 1)
}

#[verifier::opaque]
pub open spec fn combinator_text(c: Combinator, depth: nat) -> Seq<char> {
    match c {
        Combinator::DESCENDANT(t) => node_line(depth, "Combinator::DESCENDANT"@) + token_text(
            t,
            depth + 1,
        ),
        Combinator::CHILD(t) => node_line(depth, "Combinator::CHILD"@) + token_text(t, depth + 1),
        Combinator::NEXT_SIBLING(t) => node_line(depth, "Combinator::NEXT_SIBLING"@) + token_text(
            t,
            depth + 1,
        ),
        Combinator::SUBSEQUENT_SIBLING(t) => node_line(depth, "Combinator::SUBSEQUENT_SIBLING"@)
            + token_text(t, depth + 1),
        Combinator::COLUMN(a, b) => node_line(depth, "Combinator::COLUMN"@) + token_text(
            a,
            depth + 1,
        ) + token_text(b, depth + 1),
    }
}

#[verifier::opaque]
pub open spec fn component_text(x: ComplexSelectorComponent, depth: nat) -> Seq<char> {
    node_line(depth, "ComplexSelectorComponent"@) + match x.combinator {
        Some(c) => combinator_text(c, depth + 1),
        None => seq![],
    } + unit_text(x.unit, depth + 1)
}

pub open spec fn components_text(s: Seq<ComplexSelectorComponent>, depth: nat) -> Seq<char>
    decreases s.len(),
{
    if s.len() == 0 {
        seq![]
    } else {
        components_text(s.drop_last(), depth) + component_text(s.last(), depth)
    }
}

#[verifier::opaque]
pub open spec fn complex_text(c: ComplexSelector, depth: nat) -> Seq<char> {
    node_line(depth, "ComplexSelector"@) + components_text(c.components@, depth + 1)
}

pub open spec fn complexes_text(s: Seq<ComplexSelector>, depth: nat) -> Seq<char>
    decreases s.len(),
{
    if s.len() == 0 {
        seq![]
    } else {
        complexes_text(s.drop_last(), depth) + complex_text(s.last(), depth)
    }
}

/// The selector tree of a qualified rule.
#[verifier::opaque]
pub open spec fn selector_list_text(l: SelectorList, depth: nat) -> Seq<char> {
    node_line(depth, "SelectorList"@) + complexes_text(l.selectors@, depth + 1)
}

/// A qualified rule shows its selectors, not its raw prelude.
#[verifier::opaque]
pub open spec fn qualified_rule_text(r: QualifiedRule, depth: nat) -> Seq<char> {
    node_line(depth, "QualifiedRule"@) + selector_list_text(r.selectors, depth + 1) + match r.block {
        Some(b) => style_block_text(b, depth + 1),
        None => seq![],
    }
}

#[verifier::opaque]
pub open spec fn rule_text(r: Rule, depth: nat) -> Seq<char> {
    match r {
        Rule::AT_RULE(a) => node_line(depth, "Rule::AT_RULE"@) + at_rule_text(a, depth + 1),
        Rule::QUALIFIED_RULE(q) => node_line(depth, "Rule::QUALIFIED_RULE"@) + qualified_rule_text(
            q,
            depth + 1,
        ),
    }
}

pub open spec fn rules_text(s: Seq<Rule>, depth: nat) -> Seq<char>
    decreases s.len(),
{
    if s.len() == 0 {
        seq![]
    } else {
        rules_text(s.drop_last(), depth) + rule_text(s.last(), depth)
    }
}

/// A `Stylesheet` line, then each rule one level deeper than `depth`.
pub open spec fn stylesheet_text_at(s: Stylesheet, depth: nat) -> Seq<char> {
    "Stylesheet\n"@ + rules_text(s.rule_list@, depth + 1)
}

/// The whole tree: a `Stylesheet` line, then each rule one level in.
pub open spec fn stylesheet_text(s: Stylesheet) -> Seq<char> {
    stylesheet_text_at(s, 0)
}

// ---------------------------------------------------------------------------------------------
// The printer.
// ---------------------------------------------------------------------------------------------

/// Renders a stylesheet AST as an indented tree.
#[derive(Debug, Default)]
pub struct AstPrinter {
    output: String,
    depth: usize,
}

fn kind_name(k: TokenKind) -> (s: &'static str)
    requires
        !(k is DELIM),
    ensures
        s@ == kind_debug(k),
{
    match k {
        TokenKind::CURLY_OPEN => "CURLY_OPEN",
        TokenKind::CURLY_CLOSE => "CURLY_CLOSE",
        TokenKind::PAREN_OPEN => "PAREN_OPEN",
        TokenKind::PAREN_CLOSE => "PAREN_CLOSE",
        TokenKind::BRACKET_OPEN => "BRACKET_OPEN",
        TokenKind::BRACKET_CLOSE => "BRACKET_CLOSE",
        TokenKind::SEMICOLON => "SEMICOLON",
        TokenKind::COMMA => "COMMA",
        TokenKind::COLON => "COLON",
        TokenKind::DOT => "DOT",
        TokenKind::PLUS => "PLUS",
        TokenKind::HYPHEN => "HYPHEN",
        TokenKind::STAR => "STAR",
        TokenKind::SLASH => "SLASH",
        TokenKind::EQUALS => "EQUALS",
        TokenKind::GREATER_THAN => "GREATER_THAN",
        TokenKind::LESS_THAN => "LESS_THAN",
        TokenKind::TILDE => "TILDE",
        TokenKind::PIPE => "PIPE",
        TokenKind::CARET => "CARET",
        TokenKind::DOLLAR => "DOLLAR",
        TokenKind::AMPERSAND => "AMPERSAND",
        TokenKind::BANG => "BANG",
        TokenKind::QUESTION => "QUESTION",
        TokenKind::AT => "AT",
        TokenKind::PERCENT => "PERCENT",
        TokenKind::HYPHEN_DOUBLE => "HYPHEN_DOUBLE",
        TokenKind::COLON_DOUBLE => "COLON_DOUBLE",
        TokenKind::TILDE_EQUAL => "TILDE_EQUAL",
        TokenKind::PIPE_EQUAL => "PIPE_EQUAL",
        TokenKind::CARET_EQUAL => "CARET_EQUAL",
        TokenKind::DOLLAR_EQUAL => "DOLLAR_EQUAL",
        TokenKind::STAR_EQUAL => "STAR_EQUAL",
        TokenKind::CDO => "CDO",
        TokenKind::CDC => "CDC",
        TokenKind::IDENT => "IDENT",
        TokenKind::FUNCTION => "FUNCTION",
        TokenKind::AT_KEYWORD => "AT_KEYWORD",
        TokenKind::HASH_TOKEN => "HASH_TOKEN",
        TokenKind::ID_HASH => "ID_HASH",
        TokenKind::GENERIC_HASH => "GENERIC_HASH",
        TokenKind::STRING => "STRING",
        TokenKind::NUMBER => "NUMBER",
        TokenKind::PERCENTAGE => "PERCENTAGE",
        TokenKind::DIMENSION => "DIMENSION",
        TokenKind::WHITESPACE => "WHITESPACE",
        TokenKind::HEX_TOKEN => "HEX_TOKEN",
        TokenKind::ESCAPE => "ESCAPE",
        TokenKind::URL => "URL",
        TokenKind::BAD_STRING => "BAD_STRING",
        TokenKind::BAD_URL => "BAD_URL",
        TokenKind::IMPORTANT_TOKEN => "IMPORTANT_TOKEN",
        TokenKind::DIGIT_TOKEN => "DIGIT_TOKEN",
        TokenKind::EOF => "EOF",
        TokenKind::DELIM(_) => "DELIM",
    }
}

fn push_kind(out: &mut String, k: TokenKind)
    ensures
        final(out)@ == old(out)@ + kind_debug(k),
{
    match k {
        TokenKind::DELIM(c) => {
            out.append("DELIM(");
            push_debug_char(out, c);
            out.append(")");
            assert(final(out)@ =~= old(out)@ + kind_debug(k));
        },
        _ => {
            out.append(kind_name(k));
        },
    }
}

impl AstPrinter {
    pub fn new() -> (printer: Self)
        ensures
            printer.text() == Seq::<char>::empty(),
            printer.level() == 0,
    {
        Self { output: String::new(), depth: 0 }
    }

    /// The text written so far.
    pub closed spec fn text(&self) -> Seq<char> {
        self.output@
    }

    /// The nesting level at which the next node is written.
    pub closed spec fn level(&self) -> nat {
        self.depth as nat
    }

    /// The tree of `stylesheet` as text.
    pub fn render(stylesheet: &Stylesheet) -> (out: String)
        ensures
            out@ == stylesheet_text(*stylesheet),
    {
        let mut printer = Self::new();
        let ind = printer.indentation();
        printer.print_stylesheet(stylesheet, &ind, Ghost(0));
        printer.output
    }

    pub fn as_str(&self) -> (s: &str)
        ensures
            s@ == self.text(),
    {
        self.output.as_str()
    }

    /// The indentation of the current level.
    fn indentation(&self) -> (s: String)
        ensures
            s@ == indent(self.depth as nat),
    {
        let mut s = String::new();
        let mut i: usize = 0;
        while i < self.depth
            invariant
                i <= self.depth,
                s@ == indent(i as nat),
            decreases self.depth - i,
        {
            s.append("  ");
            i = i + 1;
        }
        s
    }

    /// Writes the line of a node at the indentation `ind`.
    fn enter(&mut self, ind: &String, label: &str, Ghost(depth): Ghost<nat>)
        requires
            ind@ == indent(depth),
        ensures
            final(self).output@ == old(self).output@ + node_line(depth, label@),
            final(self).depth == old(self).depth,
    {
        self.output.append(ind.as_str());
        self.output.append("(__ ");
        self.output.append(label);
        self.output.append("\n");
        assert(self.output@ =~= old(self).output@ + node_line(depth, label@));
    }

    fn print_token(&mut self, t: &TokenData, ind: &String, Ghost(depth): Ghost<nat>)
        requires
            ind@ == indent(depth),
        ensures
            final(self).output@ == old(self).output@ + token_text(*t, depth),
            final(self).depth == old(self).depth,
    {
        let mut label = String::from_str("Token::");
        push_kind(&mut label, t.kind);
        label.append(" (line=");
        push_decimal(&mut label, t.line);
        label.append(", span=");
        label.append("LexerSpan(");
        push_decimal(&mut label, t.span.0);
        label.append(", ");
        push_decimal(&mut label, t.span.1);
        label.append(")");
        label.append(")");
        assert(label@ =~= token_label(*t));
        self.enter(ind, label.as_str(), Ghost(depth));
    }

    fn print_closing(&mut self, t: &Option<TokenData>, ind: &String, Ghost(depth): Ghost<nat>)
        requires
            ind@ == indent(depth),
        ensures
            final(self).output@ == old(self).output@ + closing_text(*t, depth),
            final(self).depth == old(self).depth,
    {
        match t {
            Some(t) => self.print_token(t, ind, Ghost(depth)),
            None => {
                assert(self.output@ =~= old(self).output@ + closing_text(None, depth));
            },
        }
    }

    fn print_value(&mut self, cv: &ComponentValue, ind: &String, Ghost(depth): Ghost<nat>)
        requires
            ind@ == indent(depth),
        ensures
            final(self).output@ == old(self).output@ + value_text(*cv, depth),
            final(self).depth == old(self).depth,
        decreases cv, 1nat,
    {
        let inner = deeper(ind);
        match cv {
            ComponentValue::PRESERVED(t) => {
                self.enter(ind, "ComponentValue::PRESERVED", Ghost(depth));
                self.print_token(t, &inner, Ghost(depth + 1));
            },
            ComponentValue::SIMPLE_BLOCK(b) => {
                self.enter(ind, "ComponentValue::SIMPLE_BLOCK", Ghost(depth));
                self.print_block(b, &inner, Ghost(depth + 1));
            },
            ComponentValue::FUNCTION(f) => {
                self.enter(ind, "ComponentValue::FUNCTION", Ghost(depth));
                self.print_function(f, &inner, Ghost(depth + 1));
            },
        }
        assert(self.output@ =~= old(self).output@ + value_text(*cv, depth));
    }

    fn print_block(&mut self, b: &SimpleBlock, ind: &String, Ghost(depth): Ghost<nat>)
        requires
            ind@ == indent(depth),
        ensures
            final(self).output@ == old(self).output@ + block_text(*b, depth),
            final(self).depth == old(self).depth,
        decreases b, 0nat,
    {
        let inner = deeper(ind);
        let mut label = String::from_str("SimpleBlock (");
        push_kind(&mut label, b.opening.kind);
        label.append(")");
        self.enter(ind, label.as_str(), Ghost(depth));
        self.print_token(&b.opening, &inner, Ghost(depth + 1));
        self.print_values(&b.values, &inner, Ghost(depth + 1));
        self.print_closing(&b.closing, &inner, Ghost(depth + 1));
        assert(self.output@ =~= old(self).output@ + block_text(*b, depth));
    }

    fn print_function(&mut self, f: &Function, ind: &String, Ghost(depth): Ghost<nat>)
        requires
            ind@ == indent(depth),
        ensures
            final(self).output@ == old(self).output@ + function_text(*f, depth),
            final(self).depth == old(self).depth,
        decreases f, 0nat,
    {
        let inner = deeper(ind);
        self.enter(ind, "Function", Ghost(depth));
        self.print_token(&f.name, &inner, Ghost(depth + 1));
        self.print_values(&f.values, &inner, Ghost(depth + 1));
        self.print_closing(&f.closing, &inner, Ghost(depth + 1));
        assert(self.output@ =~= old(self).output@ + function_text(*f, depth));
    }

    fn print_values(&mut self, values: &Vec<ComponentValue>, ind: &String, Ghost(depth): Ghost<nat>)
        requires
            ind@ == indent(depth),
        ensures
            final(self).output@ == old(self).output@ + values_text(values@, depth),
            final(self).depth == old(self).depth,
        decreases values, 0nat,
    {
        let mut i: usize = 0;
        assert(values@.take(0) =~= Seq::<ComponentValue>::empty());
        while i < values.len()
            invariant
                i <= values@.len(),
                ind@ == indent(depth),
                self.depth == old(self).depth,
                self.output@ == old(self).output@ + values_text(values@.take(i as int), depth),
            decreases values@.len() - i,
        {
            assert(decreases_to!(values => values@[i as int]));
            self.print_value(&values[i], ind, Ghost(depth));
            assert(values@.take(i + 1).drop_last() =~= values@.take(i as int));
            assert(self.output@ =~= old(self).output@ + values_text(values@.take(i + 1), depth));
            i = i + 1;
        }
        assert(values@.take(i as int) =~= values@);
    }

    fn print_at_rule(&mut self, r: &AtRule, ind: &String, Ghost(depth): Ghost<nat>)
        requires
            ind@ == indent(depth),
        ensures
            final(self).output@ == old(self).output@ + at_rule_text(*r, depth),
            final(self).depth == old(self).depth,
    {
        let inner = deeper(ind);
        self.enter(ind, "AtRule", Ghost(depth));
        self.print_token(&r.name, &inner, Ghost(depth + 1));
        self.print_values(&r.prelude, &inner, Ghost(depth + 1));
        match &r.block {
            Some(b) => self.print_block(b, &inner, Ghost(depth + 1)),
            None => {},
        }
        proof {
            reveal(at_rule_text);
        }
        assert(self.output@ =~= old(self).output@ + at_rule_text(*r, depth));
    }

    fn print_declaration(&mut self, d: &Declaration, ind: &String, Ghost(depth): Ghost<nat>)
        requires
            ind@ == indent(depth),
        ensures
            final(self).output@ == old(self).output@ + declaration_text(*d, depth),
            final(self).depth == old(self).depth,
    {
        let inner = deeper(ind);
        let label = if d.important {
            "Declaration (important=true)"
        } else {
            "Declaration (important=false)"
        };
        proof {
            reveal_strlit("Declaration (important=true)");
            reveal_strlit("Declaration (important=false)");
            reveal_strlit("Declaration (important=");
            reveal_strlit("true");
            reveal_strlit("false");
            reveal_strlit(")");
            assert(label@ =~= "Declaration (important="@ + bool_text(d.important) + ")"@);
        }
        self.enter(ind, label, Ghost(depth));
        self.print_token(&d.name, &inner, Ghost(depth + 1));
        self.print_values(&d.value, &inner, Ghost(depth + 1));
        proof {
            reveal(declaration_text);
        }
        assert(self.output@ =~= old(self).output@ + declaration_text(*d, depth));
    }

    fn print_item(&mut self, item: &StyleBlockItem, ind: &String, Ghost(depth): Ghost<nat>)
        requires
            ind@ == indent(depth),
        ensures
            final(self).output@ == old(self).output@ + item_text(*item, depth),
            final(self).depth == old(self).depth,
    {
        let inner = deeper(ind);
        match item {
            StyleBlockItem::DECLARATION(d) => {
                self.enter(ind, "StyleBlockItem::DECLARATION", Ghost(depth));
                self.print_declaration(d, &inner, Ghost(depth + 1));
            },
            StyleBlockItem::AT_RULE(r) => {
                self.enter(ind, "StyleBlockItem::AT_RULE", Ghost(depth));
                self.print_at_rule(r, &inner, Ghost(depth + 1));
            },
        }
        proof {
            reveal(item_text);
        }
        assert(self.output@ =~= old(self).output@ + item_text(*item, depth));
    }

    fn print_style_block(&mut self, b: &StyleBlock, ind: &String, Ghost(depth): Ghost<nat>)
        requires
            ind@ == indent(depth),
        ensures
            final(self).output@ == old(self).output@ + style_block_text(*b, depth),
            final(self).depth == old(self).depth,
    {
        let inner = deeper(ind);
        self.enter(ind, "StyleBlock", Ghost(depth));
        self.print_token(&b.opening, &inner, Ghost(depth + 1));
        let ghost start = self.output@;
        let mut i: usize = 0;
        assert(b.items@.take(0) =~= Seq::<StyleBlockItem>::empty());
        while i < b.items.len()
            invariant
                i <= b.items@.len(),
                inner@ == indent(depth + 1),
                self.depth == old(self).depth,
                self.output@ == start + items_text(b.items@.take(i as int), depth + 1),
            decreases b.items@.len() - i,
        {
            self.print_item(&b.items[i], &inner, Ghost(depth + 1));
            assert(b.items@.take(i + 1).drop_last() =~= b.items@.take(i as int));
            assert(b.items@.take(i + 1).last() == b.items@[i as int]);
            assert(items_text(b.items@.take(i + 1), depth + 1) == items_text(
                b.items@.take(i as int),
                depth + 1,
            ) + item_text(b.items@[i as int], depth + 1));
            assert(self.output@ =~= start + items_text(b.items@.take(i + 1), depth + 1));
            i = i + 1;
        }
        assert(b.items@.take(i as int) =~= b.items@);
        self.print_closing(&b.closing, &inner, Ghost(depth + 1));
        proof {
            reveal(style_block_text);
        }
        assert(self.output@ =~= old(self).output@ + style_block_text(*b, depth));
    }

    fn print_qualified_rule(&mut self, r: &QualifiedRule, ind: &String, Ghost(depth): Ghost<nat>)
        requires
            ind@ == indent(depth),
        ensures
            final(self).output@ == old(self).output@ + qualified_rule_text(*r, depth),
            final(self).depth == old(self).depth,
    {
        let inner = deeper(ind);
        self.enter(ind, "QualifiedRule", Ghost(depth));
        self.print_selector_list(&r.selectors, &inner, Ghost(depth + 1));
        match &r.block {
            Some(b) => self.print_style_block(b, &inner, Ghost(depth + 1)),
            None => {},
        }
        proof {
            reveal(qualified_rule_text);
        }
        assert(self.output@ =~= old(self).output@ + qualified_rule_text(*r, depth));
    }

    fn print_rule(&mut self, r: &Rule, ind: &String, Ghost(depth): Ghost<nat>)
        requires
            ind@ == indent(depth),
        ensures
            final(self).output@ == old(self).output@ + rule_text(*r, depth),
            final(self).depth == old(self).depth,
    {
        let inner = deeper(ind);
        match r {
            Rule::AT_RULE(a) => {
                self.enter(ind, "Rule::AT_RULE", Ghost(depth));
                self.print_at_rule(a, &inner, Ghost(depth + 1));
            },
            Rule::QUALIFIED_RULE(q) => {
                self.enter(ind, "Rule::QUALIFIED_RULE", Ghost(depth));
                self.print_qualified_rule(q, &inner, Ghost(depth + 1));
            },
        }
        proof {
            reveal(rule_text);
        }
        assert(self.output@ =~= old(self).output@ + rule_text(*r, depth));
    }

    fn print_stylesheet(&mut self, s: &Stylesheet, outer: &String, Ghost(depth): Ghost<nat>)
        requires
            outer@ == indent(depth),
        ensures
            final(self).output@ == old(self).output@ + stylesheet_text_at(*s, depth),
            final(self).depth == old(self).depth,
    {
        self.output.append("Stylesheet\n");
        let ind = deeper(outer);
        let ghost start = self.output@;
        let mut i: usize = 0;
        assert(s.rule_list@.take(0) =~= Seq::<Rule>::empty());
        while i < s.rule_list.len()
            invariant
                i <= s.rule_list@.len(),
                ind@ == indent(depth + 1),
                self.depth == old(self).depth,
                self.output@ == start + rules_text(s.rule_list@.take(i as int), depth + 1),
            decreases s.rule_list@.len() - i,
        {
            self.print_rule(&s.rule_list[i], &ind, Ghost(depth + 1));
            assert(s.rule_list@.take(i + 1).drop_last() =~= s.rule_list@.take(i as int));
            assert(s.rule_list@.take(i + 1).last() == s.rule_list@[i as int]);
            assert(rules_text(s.rule_list@.take(i + 1), depth + 1) == rules_text(
                s.rule_list@.take(i as int),
                depth + 1,
            ) + rule_text(s.rule_list@[i as int], depth + 1));
            assert(self.output@ =~= start + rules_text(s.rule_list@.take(i + 1), depth + 1));
            i = i + 1;
        }
        assert(s.rule_list@.take(i as int) =~= s.rule_list@);
        assert(self.output@ =~= old(self).output@ + stylesheet_text_at(*s, depth));
    }
}

impl AstPrinter {
    fn print_token_opt(&mut self, t: &Option<TokenData>, ind: &String, Ghost(depth): Ghost<nat>)
        requires
            ind@ == indent(depth),
        ensures
            final(self).output@ == old(self).output@ + closing_text(*t, depth),
            final(self).depth == old(self).depth,
    {
        self.print_closing(t, ind, Ghost(depth));
    }

    fn print_namespace(&mut self, n: &NamespacePrefix, ind: &String, Ghost(depth): Ghost<nat>)
        requires
            ind@ == indent(depth),
        ensures
            final(self).output@ == old(self).output@ + namespace_text(*n, depth),
            final(self).depth == old(self).depth,
    {
        let inner = deeper(ind);
        self.enter(ind, "NamespacePrefix", Ghost(depth));
        match &n.prefix {
            Some(NamespaceName::IDENT(t)) => self.print_token(t, &inner, Ghost(depth + 1)),
            Some(NamespaceName::STAR(t)) => self.print_token(t, &inner, Ghost(depth + 1)),
            None => {},
        }
        self.print_token(&n.separator, &inner, Ghost(depth + 1));
        proof {
            reveal(namespace_text);
        }
        assert(self.output@ =~= old(self).output@ + namespace_text(*n, depth));
    }

    fn print_namespace_opt(&mut self, n: &Option<NamespacePrefix>, ind: &String, Ghost(depth): Ghost<nat>)
        requires
            ind@ == indent(depth),
        ensures
            final(self).output@ == old(self).output@ + namespace_opt_text(*n, depth),
            final(self).depth == old(self).depth,
    {
        match n {
            Some(n) => self.print_namespace(n, ind, Ghost(depth)),
            None => {
                assert(self.output@ =~= old(self).output@ + namespace_opt_text(None, depth));
            },
        }
    }

    fn print_qualified_name(&mut self, q: &QualifiedName, ind: &String, Ghost(depth): Ghost<nat>)
        requires
            ind@ == indent(depth),
        ensures
            final(self).output@ == old(self).output@ + qualified_name_text(*q, depth),
            final(self).depth == old(self).depth,
    {
        let inner = deeper(ind);
        self.enter(ind, "QualifiedName", Ghost(depth));
        self.print_namespace_opt(&q.namespace, &inner, Ghost(depth + 1));
        self.print_token(&q.name, &inner, Ghost(depth + 1));
        proof {
            reveal(qualified_name_text);
        }
        assert(self.output@ =~= old(self).output@ + qualified_name_text(*q, depth));
    }

    fn print_type_selector(&mut self, t: &TypeSelector, ind: &String, Ghost(depth): Ghost<nat>)
        requires
            ind@ == indent(depth),
        ensures
            final(self).output@ == old(self).output@ + type_selector_text(*t, depth),
            final(self).depth == old(self).depth,
    {
        let inner = deeper(ind);
        match t {
            TypeSelector::QUALIFIED_NAME(q) => {
                self.enter(ind, "TypeSelector::QUALIFIED_NAME", Ghost(depth));
                self.print_qualified_name(q, &inner, Ghost(depth + 1));
            },
            TypeSelector::UNIVERSAL { namespace, star } => {
                self.enter(ind, "TypeSelector::UNIVERSAL", Ghost(depth));
                self.print_namespace_opt(namespace, &inner, Ghost(depth + 1));
                self.print_token(star, &inner, Ghost(depth + 1));
            },
        }
        proof {
            reveal(type_selector_text);
        }
        assert(self.output@ =~= old(self).output@ + type_selector_text(*t, depth));
    }

    fn print_pseudo_class(&mut self, p: &PseudoClassSelector, ind: &String, Ghost(depth): Ghost<nat>)
        requires
            ind@ == indent(depth),
        ensures
            final(self).output@ == old(self).output@ + pseudo_class_text(*p, depth),
            final(self).depth == old(self).depth,
    {
        let inner = deeper(ind);
        self.enter(ind, "PseudoClassSelector", Ghost(depth));
        self.print_token(&p.colon, &inner, Ghost(depth + 1));
        self.print_token(&p.name, &inner, Ghost(depth + 1));
        match &p.arguments {
            Some(a) => {
                self.print_values(&a.values, &inner, Ghost(depth + 1));
                self.print_token(&a.closing, &inner, Ghost(depth + 1));
            },
            None => {},
        }
        proof {
            reveal(pseudo_class_text);
        }
        assert(self.output@ =~= old(self).output@ + pseudo_class_text(*p, depth));
    }

    fn print_matcher(&mut self, m: &Option<AttributeMatcher>, ind: &String, Ghost(depth): Ghost<nat>)
        requires
            ind@ == indent(depth),
        ensures
            final(self).output@ == old(self).output@ + matcher_text(*m, depth),
            final(self).depth == old(self).depth,
    {
        match m {
            Some(m) => {
                self.print_token_opt(&m.operator, ind, Ghost(depth));
                self.print_token(&m.equals, ind, Ghost(depth));
            },
            None => {},
        }
        assert(self.output@ =~= old(self).output@ + matcher_text(*m, depth));
    }

    fn print_attribute_value(&mut self, v: &Option<AttributeValue>, ind: &String, Ghost(depth): Ghost<nat>)
        requires
            ind@ == indent(depth),
        ensures
            final(self).output@ == old(self).output@ + attribute_value_text(*v, depth),
            final(self).depth == old(self).depth,
    {
        match v {
            Some(AttributeValue::STRING(t)) => self.print_token(t, ind, Ghost(depth)),
            Some(AttributeValue::IDENT(t)) => self.print_token(t, ind, Ghost(depth)),
            None => {},
        }
        assert(self.output@ =~= old(self).output@ + attribute_value_text(*v, depth));
    }

    fn print_attribute(&mut self, a: &AttributeSelector, ind: &String, Ghost(depth): Ghost<nat>)
        requires
            ind@ == indent(depth),
        ensures
            final(self).output@ == old(self).output@ + attribute_text(*a, depth),
            final(self).depth == old(self).depth,
    {
        let inner = deeper(ind);
        self.enter(ind, "AttributeSelector", Ghost(depth));
        self.print_token(&a.opening, &inner, Ghost(depth + 1));
        self.print_qualified_name(&a.name, &inner, Ghost(depth + 1));
        self.print_matcher(&a.matcher, &inner, Ghost(depth + 1));
        self.print_attribute_value(&a.value, &inner, Ghost(depth + 1));
        self.print_token_opt(&a.modifier, &inner, Ghost(depth + 1));
        self.print_token(&a.closing, &inner, Ghost(depth + 1));
        proof {
            reveal(attribute_text);
        }
        assert(self.output@ =~= old(self).output@ + attribute_text(*a, depth));
    }

    fn print_subclass(&mut self, s: &SubclassSelector, ind: &String, Ghost(depth): Ghost<nat>)
        requires
            ind@ == indent(depth),
        ensures
            final(self).output@ == old(self).output@ + subclass_text(*s, depth),
            final(self).depth == old(self).depth,
    {
        let inner = deeper(ind);
        match s {
            SubclassSelector::ID(i) => {
                self.enter(ind, "SubclassSelector::ID", Ghost(depth));
                self.print_token(&i.hash, &inner, Ghost(depth + 1));
            },
            SubclassSelector::CLASS(c) => {
                self.enter(ind, "SubclassSelector::CLASS", Ghost(depth));
                self.print_token(&c.dot, &inner, Ghost(depth + 1));
                self.print_token(&c.name, &inner, Ghost(depth + 1));
            },
            SubclassSelector::ATTRIBUTE(a) => {
                self.enter(ind, "SubclassSelector::ATTRIBUTE", Ghost(depth));
                self.print_attribute(a, &inner, Ghost(depth + 1));
            },
            SubclassSelector::PSEUDO_CLASS(p) => {
                self.enter(ind, "SubclassSelector::PSEUDO_CLASS", Ghost(depth));
                self.print_pseudo_class(p, &inner, Ghost(depth + 1));
            },
        }
        proof {
            reveal(subclass_text);
        }
        assert(self.output@ =~= old(self).output@ + subclass_text(*s, depth));
    }

    fn print_subclasses(&mut self, v: &Vec<SubclassSelector>, ind: &String, Ghost(depth): Ghost<nat>)
        requires
            ind@ == indent(depth),
        ensures
            final(self).output@ == old(self).output@ + subclasses_text(v@, depth),
            final(self).depth == old(self).depth,
    {
        let mut i: usize = 0;
        assert(v@.take(0) =~= Seq::<SubclassSelector>::empty());
        while i < v.len()
            invariant
                i <= v@.len(),
                ind@ == indent(depth),
                self.depth == old(self).depth,
                self.output@ == old(self).output@ + subclasses_text(v@.take(i as int), depth),
            decreases v@.len() - i,
        {
            self.print_subclass(&v[i], ind, Ghost(depth));
            assert(v@.take(i + 1).drop_last() =~= v@.take(i as int));
            assert(v@.take(i + 1).last() == v@[i as int]);
            assert(subclasses_text(v@.take(i + 1), depth) == subclasses_text(v@.take(i as int), depth)
                + subclass_text(v@[i as int], depth));
            assert(self.output@ =~= old(self).output@ + subclasses_text(v@.take(i + 1), depth));
            i = i + 1;
        }
        assert(v@.take(i as int) =~= v@);
    }

    fn print_compound(&mut self, c: &CompoundSelector, ind: &String, Ghost(depth): Ghost<nat>)
        requires
            ind@ == indent(depth),
        ensures
            final(self).output@ == old(self).output@ + compound_text(*c, depth),
            final(self).depth == old(self).depth,
    {
        let inner = deeper(ind);
        self.enter(ind, "CompoundSelector", Ghost(depth));
        match &c.type_selector {
            Some(t) => self.print_type_selector(t, &inner, Ghost(depth + 1)),
            None => {},
        }
        self.print_subclasses(&c.subclass_selectors, &inner, Ghost(depth + 1));
        proof {
            reveal(compound_text);
        }
        assert(self.output@ =~= old(self).output@ + compound_text(*c, depth));
    }

    fn print_pseudo_element(&mut self, e: &PseudoElementSelector, ind: &String, Ghost(depth): Ghost<nat>)
        requires
            ind@ == indent(depth),
        ensures
            final(self).output@ == old(self).output@ + pseudo_element_text(*e, depth),
            final(self).depth == old(self).depth,
    {
        let inner = deeper(ind);
        self.enter(ind, "PseudoElementSelector", Ghost(depth));
        self.print_token(&e.first_colon, &inner, Ghost(depth + 1));
        self.print_token_opt(&e.second_colon, &inner, Ghost(depth + 1));
        self.print_token(&e.name, &inner, Ghost(depth + 1));
        match &e.arguments {
            Some(a) => {
                self.print_values(&a.values, &inner, Ghost(depth + 1));
                self.print_token(&a.closing, &inner, Ghost(depth + 1));
            },
            None => {},
        }
        proof {
            reveal(pseudo_element_text);
        }
        assert(self.output@ =~= old(self).output@ + pseudo_element_text(*e, depth));
    }

    fn print_pseudo_classes(&mut self, v: &Vec<PseudoClassSelector>, ind: &String, Ghost(depth): Ghost<nat>)
        requires
            ind@ == indent(depth),
        ensures
            final(self).output@ == old(self).output@ + pseudo_classes_text(v@, depth),
            final(self).depth == old(self).depth,
    {
        let mut i: usize = 0;
        assert(v@.take(0) =~= Seq::<PseudoClassSelector>::empty());
        while i < v.len()
            invariant
                i <= v@.len(),
                ind@ == indent(depth),
                self.depth == old(self).depth,
                self.output@ == old(self).output@ + pseudo_classes_text(v@.take(i as int), depth),
            decreases v@.len() - i,
        {
            self.print_pseudo_class(&v[i], ind, Ghost(depth));
            assert(v@.take(i + 1).drop_last() =~= v@.take(i as int));
            assert(v@.take(i + 1).last() == v@[i as int]);
            assert(pseudo_classes_text(v@.take(i + 1), depth) == pseudo_classes_text(v@.take(i as int), depth)
                + pseudo_class_text(v@[i as int], depth));
            assert(self.output@ =~= old(self).output@ + pseudo_classes_text(v@.take(i + 1), depth));
            i = i + 1;
        }
        assert(v@.take(i as int) =~= v@);
    }

    fn print_pseudo_compound(&mut self, p: &PseudoCompoundSelector, ind: &String, Ghost(depth): Ghost<nat>)
        requires
            ind@ == indent(depth),
        ensures
            final(self).output@ == old(self).output@ + pseudo_compound_text(*p, depth),
            final(self).depth == old(self).depth,
    {
        let inner = deeper(ind);
        self.enter(ind, "PseudoCompoundSelector", Ghost(depth));
        self.print_pseudo_element(&p.pseudo_element, &inner, Ghost(depth + 1));
        self.print_pseudo_classes(&p.pseudo_classes, &inner, Ghost(depth + 1));
        proof {
            reveal(pseudo_compound_text);
        }
        assert(self.output@ =~= old(self).output@ + pseudo_compound_text(*p, depth));
    }

    fn print_pseudo_compounds(&mut self, v: &Vec<PseudoCompoundSelector>, ind: &String, Ghost(depth): Ghost<nat>)
        requires
            ind@ == indent(depth),
        ensures
            final(self).output@ == old(self).output@ + pseudo_compounds_text(v@, depth),
            final(self).depth == old(self).depth,
    {
        let mut i: usize = 0;
        assert(v@.take(0) =~= Seq::<PseudoCompoundSelector>::empty());
        while i < v.len()
            invariant
                i <= v@.len(),
                ind@ == indent(depth),
                self.depth == old(self).depth,
                self.output@ == old(self).output@ + pseudo_compounds_text(v@.take(i as int), depth),
            decreases v@.len() - i,
        {
            self.print_pseudo_compound(&v[i], ind, Ghost(depth));
            assert(v@.take(i + 1).drop_last() =~= v@.take(i as int));
            assert(v@.take(i + 1).last() == v@[i as int]);
            assert(pseudo_compounds_text(v@.take(i + 1), depth) == pseudo_compounds_text(v@.take(i as int), depth)
                + pseudo_compound_text(v@[i as int], depth));
            assert(self.output@ =~= old(self).output@ + pseudo_compounds_text(v@.take(i + 1), depth));
            i = i + 1;
        }
        assert(v@.take(i as int) =~= v@);
    }

    fn print_unit(&mut self, u: &ComplexSelectorUnit, ind: &String, Ghost(depth): Ghost<nat>)
        requires
            ind@ == indent(depth),
        ensures
            final(self).output@ == old(self).output@ + unit_text(*u, depth),
            final(self).depth == old(self).depth,
    {
        let inner = deeper(ind);
        self.enter(ind, "ComplexSelectorUnit", Ghost(depth));
        match &u.compound {
            Some(c) => self.print_compound(c, &inner, Ghost(depth + 1)),
            None => {},
        }
        self.print_pseudo_compounds(&u.pseudo_compounds, &inner, Ghost(depth + 1));
        proof {
            reveal(unit_text);
        }
        assert(self.output@ =~= old(self).output@ + unit_text(*u, depth));
    }

    fn print_combinator(&mut self, c: &Combinator, ind: &String, Ghost(depth): Ghost<nat>)
        requires
            ind@ == indent(depth),
        ensures
            final(self).output@ == old(self).output@ + combinator_text(*c, depth),
            final(self).depth == old(self).depth,
    {
        let inner = deeper(ind);
        match c {
            Combinator::DESCENDANT(t) => {
                self.enter(ind, "Combinator::DESCENDANT", Ghost(depth));
                self.print_token(t, &inner, Ghost(depth + 1));
            },
            Combinator::CHILD(t) => {
                self.enter(ind, "Combinator::CHILD", Ghost(depth));
                self.print_token(t, &inner, Ghost(depth + 1));
            },
            Combinator::NEXT_SIBLING(t) => {
                self.enter(ind, "Combinator::NEXT_SIBLING", Ghost(depth));
                self.print_token(t, &inner, Ghost(depth + 1));
            },
            Combinator::SUBSEQUENT_SIBLING(t) => {
                self.enter(ind, "Combinator::SUBSEQUENT_SIBLING", Ghost(depth));
                self.print_token(t, &inner, Ghost(depth + 1));
            },
            Combinator::COLUMN(a, b) => {
                self.enter(ind, "Combinator::COLUMN", Ghost(depth));
                self.print_token(a, &inner, Ghost(depth + 1));
                self.print_token(b, &inner, Ghost(depth + 1));
            },
        }
        proof {
            reveal(combinator_text);
        }
        assert(self.output@ =~= old(self).output@ + combinator_text(*c, depth));
    }

    fn print_component(&mut self, x: &ComplexSelectorComponent, ind: &String, Ghost(depth): Ghost<nat>)
        requires
            ind@ == indent(depth),
        ensures
            final(self).output@ == old(self).output@ + component_text(*x, depth),
            final(self).depth == old(self).depth,
    {
        let inner = deeper(ind);
        self.enter(ind, "ComplexSelectorComponent", Ghost(depth));
        match &x.combinator {
            Some(c) => self.print_combinator(c, &inner, Ghost(depth + 1)),
            None => {},
        }
        self.print_unit(&x.unit, &inner, Ghost(depth + 1));
        proof {
            reveal(component_text);
        }
        assert(self.output@ =~= old(self).output@ + component_text(*x, depth));
    }

    fn print_components(&mut self, v: &Vec<ComplexSelectorComponent>, ind: &String, Ghost(depth): Ghost<nat>)
        requires
            ind@ == indent(depth),
        ensures
            final(self).output@ == old(self).output@ + components_text(v@, depth),
            final(self).depth == old(self).depth,
    {
        let mut i: usize = 0;
        assert(v@.take(0) =~= Seq::<ComplexSelectorComponent>::empty());
        while i < v.len()
            invariant
                i <= v@.len(),
                ind@ == indent(depth),
                self.depth == old(self).depth,
                self.output@ == old(self).output@ + components_text(v@.take(i as int), depth),
            decreases v@.len() - i,
        {
            self.print_component(&v[i], ind, Ghost(depth));
            assert(v@.take(i + 1).drop_last() =~= v@.take(i as int));
            assert(v@.take(i + 1).last() == v@[i as int]);
            assert(components_text(v@.take(i + 1), depth) == components_text(v@.take(i as int), depth)
                + component_text(v@[i as int], depth));
            assert(self.output@ =~= old(self).output@ + components_text(v@.take(i + 1), depth));
            i = i + 1;
        }
        assert(v@.take(i as int) =~= v@);
    }

    fn print_complex(&mut self, c: &ComplexSelector, ind: &String, Ghost(depth): Ghost<nat>)
        requires
            ind@ == indent(depth),
        ensures
            final(self).output@ == old(self).output@ + complex_text(*c, depth),
            final(self).depth == old(self).depth,
    {
        let inner = deeper(ind);
        self.enter(ind, "ComplexSelector", Ghost(depth));
        self.print_components(&c.components, &inner, Ghost(depth + 1));
        proof {
            reveal(complex_text);
        }
        assert(self.output@ =~= old(self).output@ + complex_text(*c, depth));
    }

    fn print_complexes(&mut self, v: &Vec<ComplexSelector>, ind: &String, Ghost(depth): Ghost<nat>)
        requires
            ind@ == indent(depth),
        ensures
            final(self).output@ == old(self).output@ + complexes_text(v@, depth),
            final(self).depth == old(self).depth,
    {
        let mut i: usize = 0;
        assert(v@.take(0) =~= Seq::<ComplexSelector>::empty());
        while i < v.len()
            invariant
                i <= v@.len(),
                ind@ == indent(depth),
                self.depth == old(self).depth,
                self.output@ == old(self).output@ + complexes_text(v@.take(i as int), depth),
            decreases v@.len() - i,
        {
            self.print_complex(&v[i], ind, Ghost(depth));
            assert(v@.take(i + 1).drop_last() =~= v@.take(i as int));
            assert(v@.take(i + 1).last() == v@[i as int]);
            assert(complexes_text(v@.take(i + 1), depth) == complexes_text(v@.take(i as int), depth)
                + complex_text(v@[i as int], depth));
            assert(self.output@ =~= old(self).output@ + complexes_text(v@.take(i + 1), depth));
            i = i + 1;
        }
        assert(v@.take(i as int) =~= v@);
    }

    fn print_selector_list(&mut self, l: &SelectorList, ind: &String, Ghost(depth): Ghost<nat>)
        requires
            ind@ == indent(depth),
        ensures
            final(self).output@ == old(self).output@ + selector_list_text(*l, depth),
            final(self).depth == old(self).depth,
    {
        let inner = deeper(ind);
        self.enter(ind, "SelectorList", Ghost(depth));
        self.print_complexes(&l.selectors, &inner, Ghost(depth + 1));
        proof {
            reveal(selector_list_text);
        }
        assert(self.output@ =~= old(self).output@ + selector_list_text(*l, depth));
    }
}

/// One level deeper.
fn deeper(ind: &String) -> (r: String)
    ensures
        r@ == ind@ + "  "@,
        forall|d: nat| #[trigger] indent(d) == ind@ ==> r@ == indent(d + 1),
{
    let mut r = ind.clone();
    r.append("  ");
    r
}

impl Visitor for AstPrinter {
    /// Visiting appends the node's text at the current level and keeps the level.
    open spec fn stylesheet_visited(&self, stylesheet: Stylesheet, after: &Self) -> bool {
        &&& after.text() == self.text() + stylesheet_text_at(stylesheet, self.level())
        &&& after.level() == self.level()
    }

    /// Visiting appends the node's text at the current level and keeps the level.
    open spec fn rule_visited(&self, rule: Rule, after: &Self) -> bool {
        &&& after.text() == self.text() + rule_text(rule, self.level())
        &&& after.level() == self.level()
    }

    /// Visiting appends the node's text at the current level and keeps the level.
    open spec fn at_rule_visited(&self, at_rule: AtRule, after: &Self) -> bool {
        &&& after.text() == self.text() + at_rule_text(at_rule, self.level())
        &&& after.level() == self.level()
    }

    /// Visiting appends the node's text at the current level and keeps the level.
    open spec fn qualified_rule_visited(&self, rule: QualifiedRule, after: &Self) -> bool {
        &&& after.text() == self.text() + qualified_rule_text(rule, self.level())
        &&& after.level() == self.level()
    }

    /// Visiting appends the node's text at the current level and keeps the level.
    open spec fn style_block_visited(&self, block: StyleBlock, after: &Self) -> bool {
        &&& after.text() == self.text() + style_block_text(block, self.level())
        &&& after.level() == self.level()
    }

    /// Visiting appends the node's text at the current level and keeps the level.
    open spec fn style_block_item_visited(&self, item: StyleBlockItem, after: &Self) -> bool {
        &&& after.text() == self.text() + item_text(item, self.level())
        &&& after.level() == self.level()
    }

    /// Visiting appends the node's text at the current level and keeps the level.
    open spec fn declaration_visited(&self, declaration: Declaration, after: &Self) -> bool {
        &&& after.text() == self.text() + declaration_text(declaration, self.level())
        &&& after.level() == self.level()
    }

    /// Visiting appends the node's text at the current level and keeps the level.
    open spec fn component_value_visited(&self, value: ComponentValue, after: &Self) -> bool {
        &&& after.text() == self.text() + value_text(value, self.level())
        &&& after.level() == self.level()
    }

    /// Visiting appends the node's text at the current level and keeps the level.
    open spec fn simple_block_visited(&self, block: SimpleBlock, after: &Self) -> bool {
        &&& after.text() == self.text() + block_text(block, self.level())
        &&& after.level() == self.level()
    }

    /// Visiting appends the node's text at the current level and keeps the level.
    open spec fn function_visited(&self, function: Function, after: &Self) -> bool {
        &&& after.text() == self.text() + function_text(function, self.level())
        &&& after.level() == self.level()
    }

    /// Visiting appends the node's text at the current level and keeps the level.
    open spec fn token_visited(&self, token: TokenData, after: &Self) -> bool {
        &&& after.text() == self.text() + token_text(token, self.level())
        &&& after.level() == self.level()
    }

    fn visit_stylesheet(&mut self, stylesheet: &Stylesheet)
        ensures
            final(self).text() == old(self).text() + stylesheet_text_at(*stylesheet, old(self).level()),
            final(self).level() == old(self).level(),
    {
        let ind = self.indentation();
        self.print_stylesheet(stylesheet, &ind, Ghost(self.depth as nat));
    }

    fn visit_rule(&mut self, rule: &Rule)
        ensures
            final(self).text() == old(self).text() + rule_text(*rule, old(self).level()),
            final(self).level() == old(self).level(),
    {
        let ind = self.indentation();
        self.print_rule(rule, &ind, Ghost(self.depth as nat));
    }

    fn visit_at_rule(&mut self, at_rule: &AtRule)
        ensures
            final(self).text() == old(self).text() + at_rule_text(*at_rule, old(self).level()),
            final(self).level() == old(self).level(),
    {
        let ind = self.indentation();
        self.print_at_rule(at_rule, &ind, Ghost(self.depth as nat));
    }

    fn visit_qualified_rule(&mut self, rule: &QualifiedRule)
        ensures
            final(self).text() == old(self).text() + qualified_rule_text(*rule, old(self).level()),
            final(self).level() == old(self).level(),
    {
        let ind = self.indentation();
        self.print_qualified_rule(rule, &ind, Ghost(self.depth as nat));
    }

    fn visit_style_block(&mut self, block: &StyleBlock)
        ensures
            final(self).text() == old(self).text() + style_block_text(*block, old(self).level()),
            final(self).level() == old(self).level(),
    {
        let ind = self.indentation();
        self.print_style_block(block, &ind, Ghost(self.depth as nat));
    }

    fn visit_style_block_item(&mut self, item: &StyleBlockItem)
        ensures
            final(self).text() == old(self).text() + item_text(*item, old(self).level()),
            final(self).level() == old(self).level(),
    {
        let ind = self.indentation();
        self.print_item(item, &ind, Ghost(self.depth as nat));
    }

    fn visit_declaration(&mut self, declaration: &Declaration)
        ensures
            final(self).text() == old(self).text() + declaration_text(*declaration, old(self).level()),
            final(self).level() == old(self).level(),
    {
        let ind = self.indentation();
        self.print_declaration(declaration, &ind, Ghost(self.depth as nat));
    }

    fn visit_component_value(&mut self, value: &ComponentValue)
        ensures
            final(self).text() == old(self).text() + value_text(*value, old(self).level()),
            final(self).level() == old(self).level(),
    {
        let ind = self.indentation();
        self.print_value(value, &ind, Ghost(self.depth as nat));
    }

    fn visit_simple_block(&mut self, block: &SimpleBlock)
        ensures
            final(self).text() == old(self).text() + block_text(*block, old(self).level()),
            final(self).level() == old(self).level(),
    {
        let ind = self.indentation();
        self.print_block(block, &ind, Ghost(self.depth as nat));
    }

    fn visit_function(&mut self, function: &Function)
        ensures
            final(self).text() == old(self).text() + function_text(*function, old(self).level()),
            final(self).level() == old(self).level(),
    {
        let ind = self.indentation();
        self.print_function(function, &ind, Ghost(self.depth as nat));
    }

    fn visit_token(&mut self, token: &TokenData)
        ensures
            final(self).text() == old(self).text() + token_text(*token, old(self).level()),
            final(self).level() == old(self).level(),
    {
        let ind = self.indentation();
        self.print_token(token, &ind, Ghost(self.depth as nat));
    }
}

} // verus!

verus! {

/// `part` stands somewhere in `text`.
pub open spec fn shows(text: Seq<char>, part: Seq<char>) -> bool {
    exists|before: Seq<char>, after: Seq<char>| #![trigger before + part + after] text == before
        + part + after
}

proof fn lemma_shows_whole(part: Seq<char>)
    ensures
        shows(part, part),
{
    assert(part =~= Seq::<char>::empty() + part + Seq::<char>::empty());
}

proof fn lemma_shows_in(a: Seq<char>, b: Seq<char>, part: Seq<char>)
    requires
        shows(b, part),
    ensures
        shows(a + b, part),
        shows(b + a, part),
{
    let (x, y) = choose|x: Seq<char>, y: Seq<char>| #![trigger x + part + y] b == x + part + y;
    assert(a + b =~= (a + x) + part + y);
    assert(b + a =~= x + part + (y + a));
}

proof fn lemma_shows_inside(pre: Seq<char>, mid: Seq<char>, post: Seq<char>, part: Seq<char>)
    requires
        shows(mid, part),
    ensures
        shows(pre + mid + post, part),
{
    lemma_shows_in(post, mid, part);
    lemma_shows_in(pre, mid + post, part);
    assert(pre + mid + post =~= pre + (mid + post));
}

/// Each value of a sequence shows in the text of the sequence.
proof fn lemma_values_show_each(s: Seq<ComponentValue>, depth: nat, i: int)
    requires
        0 <= i < s.len(),
    ensures
        shows(values_text(s, depth), value_text(s[i], depth)),
    decreases s.len(),
{
    if i == s.len() - 1 {
        lemma_shows_whole(value_text(s[i], depth));
        lemma_shows_in(values_text(s.drop_last(), depth), value_text(s.last(), depth), value_text(s[i], depth));
    } else {
        lemma_values_show_each(s.drop_last(), depth, i);
        lemma_shows_in(value_text(s.last(), depth), values_text(s.drop_last(), depth), value_text(s[i], depth));
    }
}

/// Each item of a sequence shows in the text of the sequence.
proof fn lemma_items_show_each(s: Seq<StyleBlockItem>, depth: nat, i: int)
    requires
        0 <= i < s.len(),
    ensures
        shows(items_text(s, depth), item_text(s[i], depth)),
    decreases s.len(),
{
    if i == s.len() - 1 {
        lemma_shows_whole(item_text(s[i], depth));
        lemma_shows_in(items_text(s.drop_last(), depth), item_text(s.last(), depth), item_text(s[i], depth));
    } else {
        lemma_items_show_each(s.drop_last(), depth, i);
        lemma_shows_in(item_text(s.last(), depth), items_text(s.drop_last(), depth), item_text(s[i], depth));
    }
}

/// Each rule of a sequence shows in the text of the sequence.
proof fn lemma_rules_show_each(s: Seq<Rule>, depth: nat, i: int)
    requires
        0 <= i < s.len(),
    ensures
        shows(rules_text(s, depth), rule_text(s[i], depth)),
    decreases s.len(),
{
    if i == s.len() - 1 {
        lemma_shows_whole(rule_text(s[i], depth));
        lemma_shows_in(rules_text(s.drop_last(), depth), rule_text(s.last(), depth), rule_text(s[i], depth));
    } else {
        lemma_rules_show_each(s.drop_last(), depth, i);
        lemma_shows_in(rule_text(s.last(), depth), rules_text(s.drop_last(), depth), rule_text(s[i], depth));
    }
}

/// Three pieces, one after the other: each shows in the whole.
proof fn lemma_shows_parts(a: Seq<char>, b: Seq<char>, c: Seq<char>, d: Seq<char>)
    ensures
        shows(a + b + c + d, b),
        shows(a + b + c + d, c),
        shows(a + b + c + d, d),
{
    assert(a + b + c + d =~= a + b + (c + d));
    assert(a + b + c + d =~= (a + b) + c + d);
    assert(a + b + c + d =~= (a + b + c) + d + Seq::<char>::empty());
}

/// An at-rule's tree shows its name token, each prelude value, and its block when it has one,
/// one level deeper.
pub proof fn law_at_rule_tree_shows_its_children(r: AtRule, depth: nat)
    ensures
        shows(at_rule_text(r, depth), token_text(r.name, depth + 1)),
        forall|i: int|
            0 <= i < r.prelude@.len() ==> shows(
                at_rule_text(r, depth),
                value_text(#[trigger] r.prelude@[i], depth + 1),
            ),
        r.block matches Some(b) ==> shows(at_rule_text(r, depth), block_text(b, depth + 1)),
{
    reveal(at_rule_text);
    let head = node_line(depth, "AtRule"@);
    let name = token_text(r.name, depth + 1);
    let prelude = values_text(r.prelude@, depth + 1);
    let block = match r.block {
        Some(b) => block_text(b, depth + 1),
        None => Seq::<char>::empty(),
    };
    lemma_shows_parts(head, name, prelude, block);
    assert forall|i: int| 0 <= i < r.prelude@.len() implies shows(
        at_rule_text(r, depth),
        value_text(#[trigger] r.prelude@[i], depth + 1),
    ) by {
        lemma_values_show_each(r.prelude@, depth + 1, i);
        lemma_shows_inside(head + name, prelude, block, value_text(r.prelude@[i], depth + 1));
    }
}

/// A simple block's tree shows its opening token, each value, and its closing token.
pub proof fn law_block_tree_shows_its_children(b: SimpleBlock, depth: nat)
    ensures
        shows(block_text(b, depth), token_text(b.opening, depth + 1)),
        forall|i: int|
            0 <= i < b.values@.len() ==> shows(
                block_text(b, depth),
                value_text(#[trigger] b.values@[i], depth + 1),
            ),
        b.closing matches Some(c) ==> shows(block_text(b, depth), token_text(c, depth + 1)),
{
    let head = node_line(depth, "SimpleBlock ("@ + kind_debug(b.opening.kind) + ")"@);
    let open = token_text(b.opening, depth + 1);
    let values = values_text(b.values@, depth + 1);
    let close = closing_text(b.closing, depth + 1);
    lemma_shows_parts(head, open, values, close);
    assert forall|i: int| 0 <= i < b.values@.len() implies shows(
        block_text(b, depth),
        value_text(#[trigger] b.values@[i], depth + 1),
    ) by {
        lemma_values_show_each(b.values@, depth + 1, i);
        lemma_shows_inside(head + open, values, close, value_text(b.values@[i], depth + 1));
    }
}

/// A function's tree shows its name token, each argument value, and its closing token.
pub proof fn law_function_tree_shows_its_children(f: Function, depth: nat)
    ensures
        shows(function_text(f, depth), token_text(f.name, depth + 1)),
        forall|i: int|
            0 <= i < f.values@.len() ==> shows(
                function_text(f, depth),
                value_text(#[trigger] f.values@[i], depth + 1),
            ),
        f.closing matches Some(c) ==> shows(function_text(f, depth), token_text(c, depth + 1)),
{
    let head = node_line(depth, "Function"@);
    let name = token_text(f.name, depth + 1);
    let values = values_text(f.values@, depth + 1);
    let close = closing_text(f.closing, depth + 1);
    lemma_shows_parts(head, name, values, close);
    assert forall|i: int| 0 <= i < f.values@.len() implies shows(
        function_text(f, depth),
        value_text(#[trigger] f.values@[i], depth + 1),
    ) by {
        lemma_values_show_each(f.values@, depth + 1, i);
        lemma_shows_inside(head + name, values, close, value_text(f.values@[i], depth + 1));
    }
}

/// A style block's tree shows its opening token, each item, and its closing token.
pub proof fn law_style_block_tree_shows_its_children(b: StyleBlock, depth: nat)
    ensures
        shows(style_block_text(b, depth), token_text(b.opening, depth + 1)),
        forall|i: int|
            0 <= i < b.items@.len() ==> shows(
                style_block_text(b, depth),
                item_text(#[trigger] b.items@[i], depth + 1),
            ),
        b.closing matches Some(c) ==> shows(style_block_text(b, depth), token_text(c, depth + 1)),
{
    reveal(style_block_text);
    let head = node_line(depth, "StyleBlock"@);
    let open = token_text(b.opening, depth + 1);
    let items = items_text(b.items@, depth + 1);
    let close = closing_text(b.closing, depth + 1);
    lemma_shows_parts(head, open, items, close);
    assert forall|i: int| 0 <= i < b.items@.len() implies shows(
        style_block_text(b, depth),
        item_text(#[trigger] b.items@[i], depth + 1),
    ) by {
        lemma_items_show_each(b.items@, depth + 1, i);
        lemma_shows_inside(head + open, items, close, item_text(b.items@[i], depth + 1));
    }
}

/// A declaration's tree shows its name token and each value.
pub proof fn law_declaration_tree_shows_its_children(d: Declaration, depth: nat)
    ensures
        shows(declaration_text(d, depth), token_text(d.name, depth + 1)),
        forall|i: int|
            0 <= i < d.value@.len() ==> shows(
                declaration_text(d, depth),
                value_text(#[trigger] d.value@[i], depth + 1),
            ),
{
    reveal(declaration_text);
    let head = node_line(depth, "Declaration (important="@ + bool_text(d.important) + ")"@);
    let name = token_text(d.name, depth + 1);
    let values = values_text(d.value@, depth + 1);
    lemma_shows_parts(head, name, values, Seq::<char>::empty());
    assert(declaration_text(d, depth) =~= head + name + values + Seq::<char>::empty());
    assert forall|i: int| 0 <= i < d.value@.len() implies shows(
        declaration_text(d, depth),
        value_text(#[trigger] d.value@[i], depth + 1),
    ) by {
        lemma_values_show_each(d.value@, depth + 1, i);
        lemma_shows_inside(head + name, values, Seq::<char>::empty(), value_text(d.value@[i], depth + 1));
    }
}

/// A component value's tree shows its token, block or function one level deeper; an item's
/// tree its declaration or at-rule; a rule's tree its at-rule or qualified rule; a qualified
/// rule's tree its selector list and its style block; and the stylesheet's tree each of its
/// rules.
pub proof fn law_trees_show_their_children(
    v: ComponentValue,
    item: StyleBlockItem,
    rule: Rule,
    q: QualifiedRule,
    s: Stylesheet,
    depth: nat,
)
    ensures
        match v {
            ComponentValue::PRESERVED(t) => shows(value_text(v, depth), token_text(t, depth + 1)),
            ComponentValue::SIMPLE_BLOCK(b) => shows(value_text(v, depth), block_text(b, depth + 1)),
            ComponentValue::FUNCTION(f) => shows(value_text(v, depth), function_text(f, depth + 1)),
        },
        match item {
            StyleBlockItem::DECLARATION(d) => shows(item_text(item, depth), declaration_text(d, depth + 1)),
            StyleBlockItem::AT_RULE(a) => shows(item_text(item, depth), at_rule_text(a, depth + 1)),
        },
        match rule {
            Rule::AT_RULE(a) => shows(rule_text(rule, depth), at_rule_text(a, depth + 1)),
            Rule::QUALIFIED_RULE(r) => shows(rule_text(rule, depth), qualified_rule_text(r, depth + 1)),
        },
        shows(qualified_rule_text(q, depth), selector_list_text(q.selectors, depth + 1)),
        q.block matches Some(b) ==> shows(qualified_rule_text(q, depth), style_block_text(b, depth + 1)),
        forall|i: int|
            0 <= i < s.rule_list@.len() ==> shows(
                stylesheet_text_at(s, depth),
                rule_text(#[trigger] s.rule_list@[i], depth + 1),
            ),
{
    reveal(item_text);
    reveal(rule_text);
    reveal(qualified_rule_text);
    let e = Seq::<char>::empty();
    match v {
        ComponentValue::PRESERVED(t) => lemma_shows_parts(e, node_line(depth, value_label(v)), token_text(t, depth + 1), e),
        ComponentValue::SIMPLE_BLOCK(b) => lemma_shows_parts(e, node_line(depth, value_label(v)), block_text(b, depth + 1), e),
        ComponentValue::FUNCTION(f) => lemma_shows_parts(e, node_line(depth, value_label(v)), function_text(f, depth + 1), e),
    }
    assert(value_text(v, depth) =~= e + node_line(depth, value_label(v)) + match v {
        ComponentValue::PRESERVED(t) => token_text(t, depth + 1),
        ComponentValue::SIMPLE_BLOCK(b) => block_text(b, depth + 1),
        ComponentValue::FUNCTION(f) => function_text(f, depth + 1),
    } + e);
    match item {
        StyleBlockItem::DECLARATION(d) => {
            lemma_shows_parts(e, node_line(depth, "StyleBlockItem::DECLARATION"@), declaration_text(d, depth + 1), e);
            assert(item_text(item, depth) =~= e + node_line(depth, "StyleBlockItem::DECLARATION"@) + declaration_text(d, depth + 1) + e);
        },
        StyleBlockItem::AT_RULE(a) => {
            lemma_shows_parts(e, node_line(depth, "StyleBlockItem::AT_RULE"@), at_rule_text(a, depth + 1), e);
            assert(item_text(item, depth) =~= e + node_line(depth, "StyleBlockItem::AT_RULE"@) + at_rule_text(a, depth + 1) + e);
        },
    }
    match rule {
        Rule::AT_RULE(a) => {
            lemma_shows_parts(e, node_line(depth, "Rule::AT_RULE"@), at_rule_text(a, depth + 1), e);
            assert(rule_text(rule, depth) =~= e + node_line(depth, "Rule::AT_RULE"@) + at_rule_text(a, depth + 1) + e);
        },
        Rule::QUALIFIED_RULE(r) => {
            lemma_shows_parts(e, node_line(depth, "Rule::QUALIFIED_RULE"@), qualified_rule_text(r, depth + 1), e);
            assert(rule_text(rule, depth) =~= e + node_line(depth, "Rule::QUALIFIED_RULE"@) + qualified_rule_text(r, depth + 1) + e);
        },
    }
    let qblock = match q.block {
        Some(b) => style_block_text(b, depth + 1),
        None => e,
    };
    lemma_shows_parts(node_line(depth, "QualifiedRule"@), selector_list_text(q.selectors, depth + 1), qblock, e);
    assert(qualified_rule_text(q, depth) =~= node_line(depth, "QualifiedRule"@) + selector_list_text(q.selectors, depth + 1) + qblock + e);
    if let Some(b) = q.block {
        lemma_shows_parts(node_line(depth, "QualifiedRule"@), selector_list_text(q.selectors, depth + 1), style_block_text(b, depth + 1), e);
        assert(qualified_rule_text(q, depth) =~= node_line(depth, "QualifiedRule"@) + selector_list_text(q.selectors, depth + 1) + style_block_text(b, depth + 1) + e);
    }
    assert forall|i: int| 0 <= i < s.rule_list@.len() implies shows(
        stylesheet_text_at(s, depth),
        rule_text(#[trigger] s.rule_list@[i], depth + 1),
    ) by {
        lemma_rules_show_each(s.rule_list@, depth + 1, i);
        lemma_shows_in("Stylesheet\n"@, rules_text(s.rule_list@, depth + 1), rule_text(s.rule_list@[i], depth + 1));
    }
}

proof fn lemma_complexes_show_each(s: Seq<ComplexSelector>, depth: nat, i: int)
    requires
        0 <= i < s.len(),
    ensures
        shows(complexes_text(s, depth), complex_text(s[i], depth)),
    decreases s.len(),
{
    if i == s.len() - 1 {
        lemma_shows_whole(complex_text(s[i], depth));
        lemma_shows_in(complexes_text(s.drop_last(), depth), complex_text(s.last(), depth), complex_text(s[i], depth));
    } else {
        lemma_complexes_show_each(s.drop_last(), depth, i);
        lemma_shows_in(complex_text(s.last(), depth), complexes_text(s.drop_last(), depth), complex_text(s[i], depth));
    }
}

proof fn lemma_components_show_each(s: Seq<ComplexSelectorComponent>, depth: nat, i: int)
    requires
        0 <= i < s.len(),
    ensures
        shows(components_text(s, depth), component_text(s[i], depth)),
    decreases s.len(),
{
    if i == s.len() - 1 {
        lemma_shows_whole(component_text(s[i], depth));
        lemma_shows_in(components_text(s.drop_last(), depth), component_text(s.last(), depth), component_text(s[i], depth));
    } else {
        lemma_components_show_each(s.drop_last(), depth, i);
        lemma_shows_in(component_text(s.last(), depth), components_text(s.drop_last(), depth), component_text(s[i], depth));
    }
}

proof fn lemma_subclasses_show_each(s: Seq<SubclassSelector>, depth: nat, i: int)
    requires
        0 <= i < s.len(),
    ensures
        shows(subclasses_text(s, depth), subclass_text(s[i], depth)),
    decreases s.len(),
{
    if i == s.len() - 1 {
        lemma_shows_whole(subclass_text(s[i], depth));
        lemma_shows_in(subclasses_text(s.drop_last(), depth), subclass_text(s.last(), depth), subclass_text(s[i], depth));
    } else {
        lemma_subclasses_show_each(s.drop_last(), depth, i);
        lemma_shows_in(subclass_text(s.last(), depth), subclasses_text(s.drop_last(), depth), subclass_text(s[i], depth));
    }
}

/// The selector tree shows every selector of the list, every component of a selector, a
/// component's combinator and unit, a combinator's tokens under a label that names its kind,
/// a unit's compound selector, a compound's type selector and each subclass selector, and a
/// class or id selector's tokens.
pub proof fn law_selector_trees_show_their_children(
    l: SelectorList,
    c: ComplexSelector,
    x: ComplexSelectorComponent,
    comb: Combinator,
    u: ComplexSelectorUnit,
    k: CompoundSelector,
    sub: SubclassSelector,
    depth: nat,
)
    ensures
        forall|i: int|
            0 <= i < l.selectors@.len() ==> shows(
                selector_list_text(l, depth),
                complex_text(#[trigger] l.selectors@[i], depth + 1),
            ),
        forall|i: int|
            0 <= i < c.components@.len() ==> shows(
                complex_text(c, depth),
                component_text(#[trigger] c.components@[i], depth + 1),
            ),
        shows(component_text(x, depth), unit_text(x.unit, depth + 1)),
        x.combinator matches Some(y) ==> shows(component_text(x, depth), combinator_text(y, depth + 1)),
        match comb {
            Combinator::DESCENDANT(t) => shows(combinator_text(comb, depth), node_line(depth, "Combinator::DESCENDANT"@))
                && shows(combinator_text(comb, depth), token_text(t, depth + 1)),
            Combinator::CHILD(t) => shows(combinator_text(comb, depth), node_line(depth, "Combinator::CHILD"@))
                && shows(combinator_text(comb, depth), token_text(t, depth + 1)),
            Combinator::NEXT_SIBLING(t) => shows(combinator_text(comb, depth), node_line(depth, "Combinator::NEXT_SIBLING"@))
                && shows(combinator_text(comb, depth), token_text(t, depth + 1)),
            Combinator::SUBSEQUENT_SIBLING(t) => shows(combinator_text(comb, depth), node_line(depth, "Combinator::SUBSEQUENT_SIBLING"@))
                && shows(combinator_text(comb, depth), token_text(t, depth + 1)),
            Combinator::COLUMN(a, b) => shows(combinator_text(comb, depth), node_line(depth, "Combinator::COLUMN"@))
                && shows(combinator_text(comb, depth), token_text(a, depth + 1))
                && shows(combinator_text(comb, depth), token_text(b, depth + 1)),
        },
        u.compound matches Some(cs) ==> shows(unit_text(u, depth), compound_text(cs, depth + 1)),
        k.type_selector matches Some(t) ==> shows(compound_text(k, depth), type_selector_text(t, depth + 1)),
        forall|i: int|
            0 <= i < k.subclass_selectors@.len() ==> shows(
                compound_text(k, depth),
                subclass_text(#[trigger] k.subclass_selectors@[i], depth + 1),
            ),
        match sub {
            SubclassSelector::ID(id) => shows(subclass_text(sub, depth), token_text(id.hash, depth + 1)),
            SubclassSelector::CLASS(cl) => shows(subclass_text(sub, depth), token_text(cl.dot, depth + 1))
                && shows(subclass_text(sub, depth), token_text(cl.name, depth + 1)),
            _ => true,
        },
{
    reveal(selector_list_text);
    reveal(complex_text);
    reveal(component_text);
    reveal(combinator_text);
    reveal(unit_text);
    reveal(compound_text);
    reveal(subclass_text);
    let e = Seq::<char>::empty();
    assert forall|i: int| 0 <= i < l.selectors@.len() implies shows(
        selector_list_text(l, depth),
        complex_text(#[trigger] l.selectors@[i], depth + 1),
    ) by {
        lemma_complexes_show_each(l.selectors@, depth + 1, i);
        lemma_shows_in(node_line(depth, "SelectorList"@), complexes_text(l.selectors@, depth + 1), complex_text(l.selectors@[i], depth + 1));
    }
    assert forall|i: int| 0 <= i < c.components@.len() implies shows(
        complex_text(c, depth),
        component_text(#[trigger] c.components@[i], depth + 1),
    ) by {
        lemma_components_show_each(c.components@, depth + 1, i);
        lemma_shows_in(node_line(depth, "ComplexSelector"@), components_text(c.components@, depth + 1), component_text(c.components@[i], depth + 1));
    }
    let xc = match x.combinator {
        Some(y) => combinator_text(y, depth + 1),
        None => e,
    };
    lemma_shows_parts(node_line(depth, "ComplexSelectorComponent"@), xc, unit_text(x.unit, depth + 1), e);
    assert(component_text(x, depth) =~= node_line(depth, "ComplexSelectorComponent"@) + xc + unit_text(x.unit, depth + 1) + e);
    match comb {
        Combinator::COLUMN(a, b) => {
            lemma_shows_parts(e, node_line(depth, "Combinator::COLUMN"@), token_text(a, depth + 1), token_text(b, depth + 1));
            assert(combinator_text(comb, depth) =~= e + node_line(depth, "Combinator::COLUMN"@) + token_text(a, depth + 1) + token_text(b, depth + 1));
        },
        Combinator::DESCENDANT(t) => {
            lemma_shows_parts(e, node_line(depth, "Combinator::DESCENDANT"@), token_text(t, depth + 1), e);
            assert(combinator_text(comb, depth) =~= e + node_line(depth, "Combinator::DESCENDANT"@) + token_text(t, depth + 1) + e);
        },
        Combinator::CHILD(t) => {
            lemma_shows_parts(e, node_line(depth, "Combinator::CHILD"@), token_text(t, depth + 1), e);
            assert(combinator_text(comb, depth) =~= e + node_line(depth, "Combinator::CHILD"@) + token_text(t, depth + 1) + e);
        },
        Combinator::NEXT_SIBLING(t) => {
            lemma_shows_parts(e, node_line(depth, "Combinator::NEXT_SIBLING"@), token_text(t, depth + 1), e);
            assert(combinator_text(comb, depth) =~= e + node_line(depth, "Combinator::NEXT_SIBLING"@) + token_text(t, depth + 1) + e);
        },
        Combinator::SUBSEQUENT_SIBLING(t) => {
            lemma_shows_parts(e, node_line(depth, "Combinator::SUBSEQUENT_SIBLING"@), token_text(t, depth + 1), e);
            assert(combinator_text(comb, depth) =~= e + node_line(depth, "Combinator::SUBSEQUENT_SIBLING"@) + token_text(t, depth + 1) + e);
        },
    }
    let uc = match u.compound {
        Some(cs) => compound_text(cs, depth + 1),
        None => e,
    };
    lemma_shows_parts(node_line(depth, "ComplexSelectorUnit"@), uc, pseudo_compounds_text(u.pseudo_compounds@, depth + 1), e);
    assert(unit_text(u, depth) =~= node_line(depth, "ComplexSelectorUnit"@) + uc + pseudo_compounds_text(u.pseudo_compounds@, depth + 1) + e);
    let kt = match k.type_selector {
        Some(t) => type_selector_text(t, depth + 1),
        None => e,
    };
    let ks = subclasses_text(k.subclass_selectors@, depth + 1);
    lemma_shows_parts(node_line(depth, "CompoundSelector"@), kt, ks, e);
    assert(compound_text(k, depth) =~= node_line(depth, "CompoundSelector"@) + kt + ks + e);
    assert forall|i: int| 0 <= i < k.subclass_selectors@.len() implies shows(
        compound_text(k, depth),
        subclass_text(#[trigger] k.subclass_selectors@[i], depth + 1),
    ) by {
        lemma_subclasses_show_each(k.subclass_selectors@, depth + 1, i);
        lemma_shows_inside(node_line(depth, "CompoundSelector"@) + kt, ks, e, subclass_text(k.subclass_selectors@[i], depth + 1));
        assert(compound_text(k, depth) =~= node_line(depth, "CompoundSelector"@) + kt + ks + e);
    }
    match sub {
        SubclassSelector::ID(id) => {
            lemma_shows_parts(e, node_line(depth, "SubclassSelector::ID"@), token_text(id.hash, depth + 1), e);
            assert(subclass_text(sub, depth) =~= e + node_line(depth, "SubclassSelector::ID"@) + token_text(id.hash, depth + 1) + e);
        },
        SubclassSelector::CLASS(cl) => {
            lemma_shows_parts(e, node_line(depth, "SubclassSelector::CLASS"@), token_text(cl.dot, depth + 1), token_text(cl.name, depth + 1));
            assert(subclass_text(sub, depth) =~= e + node_line(depth, "SubclassSelector::CLASS"@) + token_text(cl.dot, depth + 1) + token_text(cl.name, depth + 1));
        },
        _ => {},
    }
}

} // verus!
