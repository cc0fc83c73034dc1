use vstd::prelude::*;
use crate::parser::{
    copy_component_values, cv_model, cv_tokens, cvs_model, cvs_tokens, error_points_into,
    errors_point_into, lemma_cvs_model_index, ComponentValue, ParseError, ParseErrorReason,
    ParseResult, TokenData,
};
use crate::selector_grammar::{
    lemma_outcomes_push, lemma_parts_step, tree_is_comma, preserved_kind_of, tree_head, complex_views, failures, next_comma, part_at, parts_from, successes, trim_space_back,
    ComplexView, PseudoCompoundView, UnitView, combinator_at, complex_at, complex_view,
    component_views, components_from, lemma_prepend_units_push, prepend_units,
    pseudo_class_views, pseudo_classes_from, pseudo_compound_at, pseudo_compound_view,
    pseudo_compound_views, pseudo_compounds_from, unit_at, unit_view, SubclassView, CompoundView, PseudoClassView, compound_at, compound_view, lemma_prepend_all_push, prepend_all,
    subclass_view, subclass_views, subclasses_from, attribute_of, kind_below, pseudo_class_at, pseudo_class_view, selector_error, skip_space,
    type_selector_at,
};
use crate::token::TokenKind;
use crate::types::LexerSpan;

verus! {

#[derive(Debug, Clone, PartialEq, Eq)]
pub struct SelectorList {
    pub selectors: Vec<ComplexSelector>,
}

#[derive(Debug, Clone, PartialEq, Eq)]
pub struct RelativeSelectorList {
    pub selectors: Vec<RelativeSelector>,
}

#[derive(Debug, Clone, PartialEq, Eq)]
pub struct ForgivingSelectorList {
    pub selectors: Vec<ComplexSelector>,
}

#[derive(Debug, Clone, PartialEq, Eq)]
pub struct RelativeSelector {
    pub selector: ComplexSelector,
}

#[derive(Debug, Clone, PartialEq, Eq)]
pub struct ComplexSelector {
    pub components: Vec<ComplexSelectorComponent>,
}

#[derive(Debug, Clone, PartialEq, Eq)]
pub struct ComplexSelectorComponent {
    pub combinator: Option<Combinator>,
    pub unit: ComplexSelectorUnit,
}

#[derive(Debug, Clone, PartialEq, Eq)]
pub struct ComplexSelectorUnit {
    pub compound: Option<CompoundSelector>,
    pub pseudo_compounds: Vec<PseudoCompoundSelector>,
}

#[derive(Debug, Clone, PartialEq, Eq)]
pub struct CompoundSelector {
    pub type_selector: Option<TypeSelector>,
    pub subclass_selectors: Vec<SubclassSelector>,
}

#[allow(non_camel_case_types)]
#[derive(Debug, Clone, PartialEq, Eq)]
pub enum Combinator {
    DESCENDANT(TokenData),
    CHILD(TokenData),
    NEXT_SIBLING(TokenData),
    SUBSEQUENT_SIBLING(TokenData),
    COLUMN(TokenData, TokenData),
}

#[allow(non_camel_case_types)]
#[derive(Debug, Clone, PartialEq, Eq)]
pub enum TypeSelector {
    QUALIFIED_NAME(QualifiedName),
    UNIVERSAL { namespace: Option<NamespacePrefix>, star: TokenData },
}

#[derive(Debug, Clone, PartialEq, Eq)]
pub struct QualifiedName {
    pub namespace: Option<NamespacePrefix>,
    pub name: TokenData,
}

#[derive(Debug, Clone, PartialEq, Eq)]
pub struct NamespacePrefix {
    pub prefix: Option<NamespaceName>,
    pub separator: TokenData,
}

#[allow(non_camel_case_types)]
#[derive(Debug, Clone, PartialEq, Eq)]
pub enum NamespaceName {
    IDENT(TokenData),
    STAR(TokenData),
}

#[allow(non_camel_case_types)]
#[derive(Debug, Clone, PartialEq, Eq)]
pub enum SubclassSelector {
    ID(IdSelector),
    CLASS(ClassSelector),
    ATTRIBUTE(AttributeSelector),
    PSEUDO_CLASS(PseudoClassSelector),
}

#[derive(Debug, Clone, PartialEq, Eq)]
pub struct IdSelector {
    pub hash: TokenData,
}

#[derive(Debug, Clone, PartialEq, Eq)]
pub struct ClassSelector {
    pub dot: TokenData,
    pub name: TokenData,
}

#[derive(Debug, Clone, PartialEq, Eq)]
pub struct AttributeSelector {
    pub opening: TokenData,
    pub name: QualifiedName,
    pub matcher: Option<AttributeMatcher>,
    pub value: Option<AttributeValue>,
    pub modifier: Option<TokenData>,
    pub closing: TokenData,
}

#[derive(Debug, Clone, PartialEq, Eq)]
pub struct AttributeMatcher {
    pub operator: Option<TokenData>,
    pub equals: TokenData,
}

#[allow(non_camel_case_types)]
#[derive(Debug, Clone, PartialEq, Eq)]
pub enum AttributeValue {
    STRING(TokenData),
    IDENT(TokenData),
}

#[derive(Debug, Clone, PartialEq, Eq)]
pub struct PseudoClassSelector {
    pub colon: TokenData,
    pub name: TokenData,
    pub arguments: Option<PseudoClassArguments>,
}

#[derive(Debug, Clone, PartialEq, Eq)]
pub struct PseudoClassArguments {
    pub values: Vec<ComponentValue>,
    pub closing: TokenData,
}

#[derive(Debug, Clone, PartialEq, Eq)]
pub struct PseudoCompoundSelector {
    pub pseudo_element: PseudoElementSelector,
    pub pseudo_classes: Vec<PseudoClassSelector>,
}

#[derive(Debug, Clone, PartialEq, Eq)]
pub struct PseudoElementSelector {
    pub first_colon: TokenData,
    pub second_colon: Option<TokenData>,
    pub name: TokenData,
    pub arguments: Option<PseudoElementArguments>,
}

#[derive(Debug, Clone, PartialEq, Eq)]
pub struct PseudoElementArguments {
    pub values: Vec<ComponentValue>,
    pub closing: TokenData,
}


/// The token that stands for a component value in diagnostics: the token itself, a block's
/// opening token, or a function's name.
pub open spec fn head_token(cv: ComponentValue) -> TokenData {
    match cv {
        ComponentValue::PRESERVED(t) => t,
        ComponentValue::SIMPLE_BLOCK(b) => b.opening,
        ComponentValue::FUNCTION(f) => f.name,
    }
}

pub open spec fn is_comma(cv: ComponentValue) -> bool {
    cv matches ComponentValue::PRESERVED(t) && t.kind == TokenKind::COMMA
}

/// Number of top-level commas in `s`.
pub open spec fn comma_count(s: Seq<ComponentValue>) -> nat
    decreases s.len(),
{
    if s.len() == 0 {
        0
    } else {
        comma_count(s.drop_last()) + if is_comma(s.last()) {
            1nat
        } else {
            0nat
        }
    }
}

/// A complex selector has at least one component; only the first has no combinator.
pub open spec fn well_formed_selector(sel: ComplexSelector) -> bool {
    &&& sel.components@.len() >= 1
    &&& sel.components@[0].combinator is None
    &&& forall|i: int|
        1 <= i < sel.components@.len() ==> #[trigger] sel.components@[i].combinator is Some
}

pub proof fn lemma_head_in(s: Seq<ComponentValue>, k: int)
    requires
        0 <= k < s.len(),
    ensures
        exists|j: int| 0 <= j < cvs_tokens(s).len() && cvs_tokens(s)[j] == head_token(s[k]),
    decreases s.len(),
{
    let n = s.len() - 1;
    assert(cv_tokens(s[k])[0] == head_token(s[k])) by {
        match s[k] {
            ComponentValue::PRESERVED(t) => {},
            ComponentValue::SIMPLE_BLOCK(b) => {},
            ComponentValue::FUNCTION(f) => {},
        }
    }
    assert(cvs_tokens(s) == cvs_tokens(s.drop_last()) + cv_tokens(s.last()));
    if k == n {
        let j = cvs_tokens(s.drop_last()).len() as int;
        assert(cvs_tokens(s)[j] == cv_tokens(s.last())[0]);
    } else {
        lemma_head_in(s.drop_last(), k);
        let j = choose|j: int|
            0 <= j < cvs_tokens(s.drop_last()).len() && cvs_tokens(s.drop_last())[j] == head_token(
                s.drop_last()[k],
            );
        assert(cvs_tokens(s)[j] == cvs_tokens(s.drop_last())[j]);
    }
}

/// The head of a value's model is the value's head token.
pub proof fn lemma_tree_head(cv: ComponentValue)
    ensures
        tree_head(cv_model(cv)) == head_token(cv),
{
}

/// The model of the value at `k` of a list.
pub proof fn lemma_model_at(s: Seq<ComponentValue>, k: int)
    requires
        0 <= k < s.len(),
    ensures
        cvs_model(s).len() == s.len(),
        cvs_model(s)[k] == cv_model(s[k]),
{
    lemma_cvs_model_index(s);
}

/// The models of a list of values, one by one, with the values' heads.
pub proof fn lemma_value_models(s: Seq<ComponentValue>)
    ensures
        cvs_model(s).len() == s.len(),
        forall|k: int| 0 <= k < s.len() ==> #[trigger] cvs_model(s)[k] == cv_model(s[k]),
        forall|k: int|
            0 <= k < s.len() ==> tree_head(#[trigger] cvs_model(s)[k]) == head_token(s[k]),
{
    lemma_cvs_model_index(s);
    assert forall|k: int| 0 <= k < s.len() implies tree_head(#[trigger] cvs_model(s)[k])
        == head_token(s[k]) by {
        lemma_tree_head(s[k]);
    }
}

/// Reads selectors out of the component values of a qualified rule's prelude.
pub struct SelectorParser<'a> {
    values: &'a [ComponentValue],
}

/// The token data for a component value.
fn head(cv: &ComponentValue) -> (t: TokenData)
    ensures
        t == head_token(*cv),
{
    match cv {
        ComponentValue::PRESERVED(t) => *t,
        ComponentValue::SIMPLE_BLOCK(b) => b.opening,
        ComponentValue::FUNCTION(f) => f.name,
    }
}

fn preserved_kind(cv: &ComponentValue) -> (k: Option<TokenKind>)
    ensures
        k == match *cv {
            ComponentValue::PRESERVED(t) => Some(t.kind),
            _ => None,
        },
{
    match cv {
        ComponentValue::PRESERVED(t) => Some(t.kind),
        _ => None,
    }
}

/// A selector syntax error at a component value.
fn error_at(cv: &ComponentValue, reason: ParseErrorReason) -> (e: ParseError)
    ensures
        e.reason == reason,
        e.line == head_token(*cv).line,
        e.span == head_token(*cv).span,
{
    let t = head(cv);
    ParseError { reason, line: t.line, span: t.span }
}

fn value_kind(values: &Vec<ComponentValue>, j: usize) -> (k: Option<TokenKind>)
    ensures
        k == if j < values@.len() {
            match values@[j as int] {
                ComponentValue::PRESERVED(t) => Some(t.kind),
                _ => None,
            }
        } else {
            None
        },
        k == kind_below(cvs_model(values@), j as int, values@.len() as int),
{
    proof {
        lemma_cvs_model_index(values@);
    }
    if j < values.len() {
        preserved_kind(&values[j])
    } else {
        None
    }
}

/// The first index at or after `j` that is not whitespace.
fn skip_whitespace(values: &Vec<ComponentValue>, from: usize) -> (r: usize)
    requires
        from <= values@.len(),
    ensures
        from <= r <= values@.len(),
        r == skip_space(cvs_model(values@), from as int, values@.len() as int),
{
    let mut j = from;
    while j < values.len() && value_kind(values, j) == Some(TokenKind::WHITESPACE)
        invariant
            from <= j <= values@.len(),
            skip_space(cvs_model(values@), j as int, values@.len() as int) == skip_space(
                cvs_model(values@),
                from as int,
                values@.len() as int,
            ),
        decreases values@.len() - j,
    {
        j = j + 1;
    }
    j
}

/// The contents of `[...]`: a name with an optional namespace, then optionally a matcher,
/// a string or identifier value, and a modifier, with whitespace anywhere between.
fn parse_attribute(block: &crate::parser::SimpleBlock) -> (r: Option<AttributeSelector>)
    ensures
        r matches Some(a) ==> a.opening == block.opening && block.closing == Some(a.closing),
        r == attribute_of(block.opening, cvs_model(block.values@), block.closing),
{
    proof {
        lemma_cvs_model_index(block.values@);
        assert forall|k: int| 0 <= k < block.values@.len() implies tree_head(
            #[trigger] cvs_model(block.values@)[k],
        ) == head_token(block.values@[k]) by {
            lemma_tree_head(block.values@[k]);
        }
    }
    let closing = match block.closing {
        Some(c) => c,
        None => return None,
    };
    let values = &block.values;
    let n = values.len();
    let mut j = skip_whitespace(values, 0);
    let k0 = value_kind(values, j);
    let k1 = if j < n { value_kind(values, j + 1) } else { None };
    let k2 = if j < n && j + 1 < n { value_kind(values, j + 2) } else { None };
    let name = if (k0 == Some(TokenKind::IDENT) || k0 == Some(TokenKind::DELIM('*'))) && k1 == Some(
        TokenKind::DELIM('|'),
    ) && k2 == Some(TokenKind::IDENT) {
        let first = head(&values[j]);
        let prefix = if k0 == Some(TokenKind::IDENT) {
            NamespaceName::IDENT(first)
        } else {
            NamespaceName::STAR(first)
        };
        let name = QualifiedName {
            namespace: Some(NamespacePrefix { prefix: Some(prefix), separator: head(&values[j + 1]) }),
            name: head(&values[j + 2]),
        };
        j = j + 3;
        name
    } else if k0 == Some(TokenKind::DELIM('|')) && k1 == Some(TokenKind::IDENT) {
        let name = QualifiedName {
            namespace: Some(NamespacePrefix { prefix: None, separator: head(&values[j]) }),
            name: head(&values[j + 1]),
        };
        j = j + 2;
        name
    } else if k0 == Some(TokenKind::IDENT) {
        let name = QualifiedName { namespace: None, name: head(&values[j]) };
        j = j + 1;
        name
    } else {
        return None;
    };
    j = skip_whitespace(values, j);
    if j == n {
        return Some(
            AttributeSelector {
                opening: block.opening,
                name,
                matcher: None,
                value: None,
                modifier: None,
                closing,
            },
        );
    }
    let k0 = value_kind(values, j);
    let k1 = value_kind(values, j + 1);
    let matcher = if k0 == Some(TokenKind::DELIM('=')) {
        let m = AttributeMatcher { operator: None, equals: head(&values[j]) };
        j = j + 1;
        m
    } else if (k0 == Some(TokenKind::DELIM('~')) || k0 == Some(TokenKind::DELIM('|')) || k0 == Some(
        TokenKind::DELIM('^'),
    ) || k0 == Some(TokenKind::DELIM('$')) || k0 == Some(TokenKind::DELIM('*'))) && k1 == Some(
        TokenKind::DELIM('='),
    ) {
        let m = AttributeMatcher { operator: Some(head(&values[j])), equals: head(&values[j + 1]) };
        j = j + 2;
        m
    } else {
        return None;
    };
    j = skip_whitespace(values, j);
    let value = match value_kind(values, j) {
        Some(TokenKind::STRING) => AttributeValue::STRING(head(&values[j])),
        Some(TokenKind::IDENT) => AttributeValue::IDENT(head(&values[j])),
        _ => return None,
    };
    j = skip_whitespace(values, j + 1);
    let modifier = if value_kind(values, j) == Some(TokenKind::IDENT) {
        let m = head(&values[j]);
        j = skip_whitespace(values, j + 1);
        Some(m)
    } else {
        None
    };
    if j != n {
        return None;
    }
    Some(
        AttributeSelector {
            opening: block.opening,
            name,
            matcher: Some(matcher),
            value: Some(value),
            modifier,
            closing,
        },
    )
}

impl<'a> SelectorParser<'a> {
    pub closed spec fn input(&self) -> Seq<ComponentValue> {
        self.values@
    }

    pub fn new(values: &'a [ComponentValue]) -> (p: Self)
        ensures
            p.input() == values@,
    {
        Self { values }
    }

    /// An error at the component value at `k` points into the input's tokens.
    proof fn lemma_error_at(&self, k: int, e: ParseError)
        requires
            0 <= k < self.input().len(),
            e.line == head_token(self.input()[k]).line,
            e.span == head_token(self.input()[k]).span,
        ensures
            error_points_into(e, cvs_tokens(self.input())),
    {
        lemma_head_in(self.input(), k);
    }

    fn kind_at(&self, i: usize, hi: usize) -> (k: Option<TokenKind>)
        requires
            hi <= self.input().len(),
        ensures
            k == if i < hi {
                match self.input()[i as int] {
                    ComponentValue::PRESERVED(t) => Some(t.kind),
                    _ => None,
                }
            } else {
                None
            },
            k == kind_below(cvs_model(self.input()), i as int, hi as int),
    {
        proof {
            lemma_value_models(self.input());
        }
        if i < hi {
            preserved_kind(&self.values[i])
        } else {
            None
        }
    }

    fn fail(&self, i: usize, reason: ParseErrorReason) -> (e: ParseError)
        requires
            i < self.input().len(),
        ensures
            e.reason == reason,
            error_points_into(e, cvs_tokens(self.input())),
            e == selector_error(cvs_model(self.input()), i as int, reason),
    {
        proof {
            lemma_value_models(self.input());
            lemma_tree_head(self.input()[i as int]);
        }
        let e = error_at(&self.values[i], reason);
        proof {
            self.lemma_error_at(i as int, e);
        }
        e
    }

    /// A type selector at `i`: an optional namespace prefix, then a name or `*`.
    fn parse_type_selector(&self, i: usize, hi: usize) -> (r: (usize, Option<TypeSelector>))
        requires
            i <= hi <= self.input().len(),
        ensures
            i <= r.0 <= hi,
            r.1 is None <==> r.0 == i,
            (r.0 as int, r.1) == type_selector_at(cvs_model(self.input()), i as int, hi as int),
    {
        proof {
            lemma_value_models(self.input());
        }
        let k0 = self.kind_at(i, hi);
        let k1 = if hi - i > 1 { self.kind_at(i + 1, hi) } else { None };
        let k2 = if hi - i > 2 { self.kind_at(i + 2, hi) } else { None };
        let name_like = |k: Option<TokenKind>| -> (b: bool)
            ensures b == (k == Some(TokenKind::IDENT) || k == Some(TokenKind::DELIM('*'))),
            { k == Some(TokenKind::IDENT) || k == Some(TokenKind::DELIM('*')) };
        // `ns|name`, `*|name`
        if name_like(k0) && k1 == Some(TokenKind::DELIM('|')) && name_like(k2) {
            let first = head(&self.values[i]);
            let prefix = if k0 == Some(TokenKind::IDENT) {
                NamespaceName::IDENT(first)
            } else {
                NamespaceName::STAR(first)
            };
            let namespace = Some(NamespacePrefix { prefix: Some(prefix), separator: head(&self.values[i + 1]) });
            let last = head(&self.values[i + 2]);
            let sel = if k2 == Some(TokenKind::IDENT) {
                TypeSelector::QUALIFIED_NAME(QualifiedName { namespace, name: last })
            } else {
                TypeSelector::UNIVERSAL { namespace, star: last }
            };
            return (i + 3, Some(sel));
        }
        // `|name`
        if k0 == Some(TokenKind::DELIM('|')) && name_like(k1) {
            let namespace = Some(NamespacePrefix { prefix: None, separator: head(&self.values[i]) });
            let last = head(&self.values[i + 1]);
            let sel = if k1 == Some(TokenKind::IDENT) {
                TypeSelector::QUALIFIED_NAME(QualifiedName { namespace, name: last })
            } else {
                TypeSelector::UNIVERSAL { namespace, star: last }
            };
            return (i + 2, Some(sel));
        }
        if k0 == Some(TokenKind::IDENT) {
            return (i + 1, Some(TypeSelector::QUALIFIED_NAME(QualifiedName { namespace: None, name: head(&self.values[i]) })));
        }
        if k0 == Some(TokenKind::DELIM('*')) {
            return (i + 1, Some(TypeSelector::UNIVERSAL { namespace: None, star: head(&self.values[i]) }));
        }
        (i, None)
    }

    /// A pseudo-class name after the colon at `i`: an identifier, or a function whose
    /// arguments are kept as component values.
    fn parse_pseudo_class(&self, i: usize, hi: usize) -> (r: Result<(usize, PseudoClassSelector), ParseError>)
        requires
            i < hi <= self.input().len(),
        ensures
            r matches Ok((j, _)) ==> i + 2 <= j <= hi,
            r matches Err(e) ==> error_points_into(e, cvs_tokens(self.input())),
            match r {
                Ok((j, p)) => pseudo_class_at(cvs_model(self.input()), i as int, hi as int) == Ok::<
                    (int, PseudoClassView),
                    ParseError,
                >((j as int, pseudo_class_view(p))),
                Err(e) => pseudo_class_at(cvs_model(self.input()), i as int, hi as int) == Err::<
                    (int, PseudoClassView),
                    ParseError,
                >(e),
            },
    {
        proof {
            lemma_value_models(self.input());
        }
        let colon = head(&self.values[i]);
        if hi - i < 2 {
            return Err(self.fail(i, ParseErrorReason::UNEXPECTED_EOF));
        }
        match &self.values[i + 1] {
            ComponentValue::PRESERVED(t) => {
                if t.kind == TokenKind::IDENT {
                    Ok((i + 2, PseudoClassSelector { colon, name: *t, arguments: None }))
                } else {
                    Err(self.fail(i + 1, ParseErrorReason::UNEXPECTED_TOKEN))
                }
            },
            ComponentValue::FUNCTION(f) => {
                match f.closing {
                    Some(closing) => Ok(
                        (
                            i + 2,
                            PseudoClassSelector {
                                colon,
                                name: f.name,
                                arguments: Some(
                                    PseudoClassArguments {
                                        values: copy_component_values(&f.values),
                                        closing,
                                    },
                                ),
                            },
                        ),
                    ),
                    None => Err(self.fail(i + 1, ParseErrorReason::UNEXPECTED_EOF)),
                }
            },
            ComponentValue::SIMPLE_BLOCK(_) => Err(self.fail(i + 1, ParseErrorReason::UNEXPECTED_TOKEN)),
        }
    }

    /// A compound selector at `i`: an optional type selector and any id, class, attribute
    /// and pseudo-class selectors. Stops before `::` and before anything else.
    fn parse_compound(&self, i: usize, hi: usize) -> (r: Result<(usize, Option<CompoundSelector>), ParseError>)
        requires
            i <= hi <= self.input().len(),
        ensures
            r matches Ok((j, c)) ==> i <= j <= hi && (c is None <==> j == i),
            r matches Err(e) ==> error_points_into(e, cvs_tokens(self.input())),
            match r {
                Ok((j, c)) => compound_at(cvs_model(self.input()), i as int, hi as int) == Ok::<
                    (int, Option<CompoundView>),
                    ParseError,
                >(
                    (
                        j as int,
                        match c {
                            Some(c) => Some(compound_view(c)),
                            None => None,
                        },
                    ),
                ),
                Err(e) => compound_at(cvs_model(self.input()), i as int, hi as int) == Err::<
                    (int, Option<CompoundView>),
                    ParseError,
                >(e),
            },
    {
        let ghost s = cvs_model(self.input());
        proof {
            lemma_value_models(self.input());
        }
        let (mut j, type_selector) = self.parse_type_selector(i, hi);
        let ghost j0 = j as int;
        let mut subclass_selectors: Vec<SubclassSelector> = Vec::new();
        proof {
            assert(prepend_all(subclass_views(subclass_selectors@), subclasses_from(s, j0, hi as int))
                == subclasses_from(s, j0, hi as int)) by {
                if let Ok((k, ys)) = subclasses_from(s, j0, hi as int) {
                    assert(subclass_views(subclass_selectors@) + ys =~= ys);
                }
            }
        }
        loop
            invariant
                i <= j <= hi,
                hi <= self.input().len(),
                s == cvs_model(self.input()),
                (type_selector is None && subclass_selectors@.len() == 0) ==> j == i,
                (type_selector is Some || subclass_selectors@.len() > 0) ==> j > i,
                j0 == type_selector_at(s, i as int, hi as int).0,
                type_selector == type_selector_at(s, i as int, hi as int).1,
                subclasses_from(s, j0, hi as int) == prepend_all(
                    subclass_views(subclass_selectors@),
                    subclasses_from(s, j as int, hi as int),
                ),
            ensures
                subclasses_from(s, j as int, hi as int) == Ok::<(int, Seq<SubclassView>), ParseError>(
                    (j as int, seq![]),
                ),
            decreases hi - j,
        {
            if j == hi {
                break ;
            }
            let ghost done = subclass_selectors@;
            proof {
                lemma_value_models(self.input());
            }
            match &self.values[j] {
                ComponentValue::PRESERVED(t) => {
                    if t.kind == TokenKind::ID_HASH {
                        let x = SubclassSelector::ID(IdSelector { hash: *t });
                        proof {
                            lemma_prepend_all_push(
                                subclass_views(done),
                                subclass_view(x),
                                subclasses_from(s, j + 1, hi as int),
                            );
                            assert(subclass_views(done.push(x)) =~= subclass_views(done).push(
                                subclass_view(x),
                            ));
                        }
                        subclass_selectors.push(x);
                        j = j + 1;
                    } else if t.kind == TokenKind::DELIM('.') {
                        if hi - j >= 2 && self.kind_at(j + 1, hi) == Some(TokenKind::IDENT) {
                            let name = head(&self.values[j + 1]);
                            let x = SubclassSelector::CLASS(ClassSelector { dot: *t, name });
                            proof {
                                lemma_prepend_all_push(
                                    subclass_views(done),
                                    subclass_view(x),
                                    subclasses_from(s, j + 2, hi as int),
                                );
                                assert(subclass_views(done.push(x)) =~= subclass_views(done).push(
                                    subclass_view(x),
                                ));
                            }
                            subclass_selectors.push(x);
                            j = j + 2;
                        } else {
                            return Err(self.fail(j, ParseErrorReason::UNEXPECTED_TOKEN));
                        }
                    } else if t.kind == TokenKind::COLON {
                        if hi - j >= 2 && self.kind_at(j + 1, hi) == Some(TokenKind::COLON) {
                            break ;
                        }
                        match self.parse_pseudo_class(j, hi) {
                            Ok((next, pseudo)) => {
                                let x = SubclassSelector::PSEUDO_CLASS(pseudo);
                                proof {
                                    lemma_prepend_all_push(
                                        subclass_views(done),
                                        subclass_view(x),
                                        subclasses_from(s, next as int, hi as int),
                                    );
                                    assert(subclass_views(done.push(x)) =~= subclass_views(
                                        done,
                                    ).push(subclass_view(x)));
                                }
                                subclass_selectors.push(x);
                                j = next;
                            },
                            Err(e) => return Err(e),
                        }
                    } else {
                        break ;
                    }
                },
                ComponentValue::SIMPLE_BLOCK(b) => {
                    if b.opening.kind != TokenKind::BRACKET_OPEN {
                        break ;
                    }
                    match parse_attribute(b) {
                        Some(attribute) => {
                            let x = SubclassSelector::ATTRIBUTE(attribute);
                            proof {
                                lemma_prepend_all_push(
                                    subclass_views(done),
                                    subclass_view(x),
                                    subclasses_from(s, j + 1, hi as int),
                                );
                                assert(subclass_views(done.push(x)) =~= subclass_views(done).push(
                                    subclass_view(x),
                                ));
                            }
                            subclass_selectors.push(x);
                            j = j + 1;
                        },
                        None => return Err(self.fail(j, ParseErrorReason::UNEXPECTED_TOKEN)),
                    }
                },
                ComponentValue::FUNCTION(_) => {
                    break ;
                },
            }
        }
        proof {
            assert(subclass_views(subclass_selectors@) + seq![] =~= subclass_views(
                subclass_selectors@,
            ));
        }
        if type_selector.is_none() && subclass_selectors.len() == 0 {
            return Ok((j, None));
        }
        Ok((j, Some(CompoundSelector { type_selector, subclass_selectors })))
    }

    /// A pseudo-element at `i` (`::` and a name) followed by its pseudo-classes.
    #[verifier::loop_isolation(false)]
    fn parse_pseudo_compound(&self, i: usize, hi: usize) -> (r: Result<(usize, PseudoCompoundSelector), ParseError>)
        requires
            i + 1 < hi <= self.input().len(),
        ensures
            r matches Ok((j, _)) ==> i < j <= hi,
            r matches Err(e) ==> error_points_into(e, cvs_tokens(self.input())),
            match r {
                Ok((j, p)) => pseudo_compound_at(cvs_model(self.input()), i as int, hi as int) == Ok::<
                    (int, PseudoCompoundView),
                    ParseError,
                >((j as int, pseudo_compound_view(p))),
                Err(e) => pseudo_compound_at(cvs_model(self.input()), i as int, hi as int) == Err::<
                    (int, PseudoCompoundView),
                    ParseError,
                >(e),
            },
    {
        let ghost s = cvs_model(self.input());
        proof {
            lemma_value_models(self.input());
        }
        let first_colon = head(&self.values[i]);
        let second_colon = Some(head(&self.values[i + 1]));
        let (name, arguments) = if hi - i < 3 {
            return Err(self.fail(i + 1, ParseErrorReason::UNEXPECTED_EOF));
        } else {
            match &self.values[i + 2] {
                ComponentValue::PRESERVED(t) => {
                    if t.kind == TokenKind::IDENT {
                        (*t, None)
                    } else {
                        return Err(self.fail(i + 2, ParseErrorReason::UNEXPECTED_TOKEN));
                    }
                },
                ComponentValue::FUNCTION(f) => {
                    match f.closing {
                        Some(closing) => (
                            f.name,
                            Some(PseudoElementArguments { values: copy_component_values(&f.values), closing }),
                        ),
                        None => return Err(self.fail(i + 2, ParseErrorReason::UNEXPECTED_EOF)),
                    }
                },
                ComponentValue::SIMPLE_BLOCK(_) => {
                    return Err(self.fail(i + 2, ParseErrorReason::UNEXPECTED_TOKEN));
                },
            }
        };
        let pseudo_element = PseudoElementSelector { first_colon, second_colon, name, arguments };
        let mut j = i + 3;
        let mut pseudo_classes: Vec<PseudoClassSelector> = Vec::new();
        proof {
            if let Ok((k, ys)) = pseudo_classes_from(s, j as int, hi as int) {
                assert(pseudo_class_views(pseudo_classes@) + ys =~= ys);
            }
        }
        while j < hi && self.kind_at(j, hi) == Some(TokenKind::COLON) && !(hi - j >= 2 && self.kind_at(
            j + 1,
            hi,
        ) == Some(TokenKind::COLON))
            invariant
                i + 3 <= j <= hi,
                hi <= self.input().len(),
                s == cvs_model(self.input()),
                pseudo_classes_from(s, i + 3, hi as int) == prepend_all(
                    pseudo_class_views(pseudo_classes@),
                    pseudo_classes_from(s, j as int, hi as int),
                ),
            decreases hi - j,
        {
            let ghost done = pseudo_classes@;
            match self.parse_pseudo_class(j, hi) {
                Ok((next, pseudo)) => {
                    proof {
                        lemma_prepend_all_push(
                            pseudo_class_views(done),
                            pseudo_class_view(pseudo),
                            pseudo_classes_from(s, next as int, hi as int),
                        );
                        assert(pseudo_class_views(done.push(pseudo)) =~= pseudo_class_views(done).push(
                            pseudo_class_view(pseudo),
                        ));
                    }
                    pseudo_classes.push(pseudo);
                    j = next;
                },
                Err(e) => return Err(e),
            }
        }
        proof {
            assert(pseudo_class_views(pseudo_classes@) + seq![] =~= pseudo_class_views(pseudo_classes@));
        }
        Ok((j, PseudoCompoundSelector { pseudo_element, pseudo_classes }))
    }

    /// A compound selector and any pseudo-element compounds after it; at least one of them.
    #[verifier::loop_isolation(false)]
    fn parse_unit(&self, i: usize, hi: usize) -> (r: Result<(usize, ComplexSelectorUnit), ParseError>)
        requires
            i < hi <= self.input().len(),
        ensures
            r matches Ok((j, _)) ==> i < j <= hi,
            r matches Err(e) ==> error_points_into(e, cvs_tokens(self.input())),
            match r {
                Ok((j, u)) => unit_at(cvs_model(self.input()), i as int, hi as int) == Ok::<
                    (int, UnitView),
                    ParseError,
                >((j as int, unit_view(u))),
                Err(e) => unit_at(cvs_model(self.input()), i as int, hi as int) == Err::<
                    (int, UnitView),
                    ParseError,
                >(e),
            },
    {
        let ghost s = cvs_model(self.input());
        proof {
            lemma_value_models(self.input());
        }
        let (mut j, compound) = match self.parse_compound(i, hi) {
            Ok(x) => x,
            Err(e) => return Err(e),
        };
        let ghost j1 = j as int;
        let mut pseudo_compounds: Vec<PseudoCompoundSelector> = Vec::new();
        proof {
            if let Ok((k, ys)) = pseudo_compounds_from(s, j1, hi as int) {
                assert(pseudo_compound_views(pseudo_compounds@) + ys =~= ys);
            }
        }
        while hi - j >= 2 && self.kind_at(j, hi) == Some(TokenKind::COLON) && self.kind_at(j + 1, hi)
            == Some(TokenKind::COLON)
            invariant
                i <= j <= hi,
                hi <= self.input().len(),
                s == cvs_model(self.input()),
                (compound is Some || pseudo_compounds@.len() > 0) ==> j > i,
                pseudo_compounds_from(s, j1, hi as int) == prepend_all(
                    pseudo_compound_views(pseudo_compounds@),
                    pseudo_compounds_from(s, j as int, hi as int),
                ),
            decreases hi - j,
        {
            let ghost done = pseudo_compounds@;
            match self.parse_pseudo_compound(j, hi) {
                Ok((next, pseudo)) => {
                    proof {
                        lemma_prepend_all_push(
                            pseudo_compound_views(done),
                            pseudo_compound_view(pseudo),
                            pseudo_compounds_from(s, next as int, hi as int),
                        );
                        assert(pseudo_compound_views(done.push(pseudo)) =~= pseudo_compound_views(
                            done,
                        ).push(pseudo_compound_view(pseudo)));
                    }
                    pseudo_compounds.push(pseudo);
                    j = next;
                },
                Err(e) => return Err(e),
            }
        }
        proof {
            assert(pseudo_compound_views(pseudo_compounds@) + seq![] =~= pseudo_compound_views(
                pseudo_compounds@,
            ));
        }
        if compound.is_none() && pseudo_compounds.len() == 0 {
            return Err(self.fail(i, ParseErrorReason::UNEXPECTED_TOKEN));
        }
        Ok((j, ComplexSelectorUnit { compound, pseudo_compounds }))
    }

    /// A combinator at `i`: whitespace, or `>`, `+`, `~` or `||` with optional whitespace
    /// around it.
    fn parse_combinator(&self, i: usize, hi: usize) -> (r: Result<(usize, Combinator), ParseError>)
        requires
            i < hi <= self.input().len(),
        ensures
            r matches Ok((j, _)) ==> i < j <= hi,
            r matches Err(e) ==> error_points_into(e, cvs_tokens(self.input())),
            match r {
                Ok((j, c)) => combinator_at(cvs_model(self.input()), i as int, hi as int) == Ok::<
                    (int, Combinator),
                    ParseError,
                >((j as int, c)),
                Err(e) => combinator_at(cvs_model(self.input()), i as int, hi as int) == Err::<
                    (int, Combinator),
                    ParseError,
                >(e),
            },
    {
        let ghost s = cvs_model(self.input());
        proof {
            lemma_value_models(self.input());
        }
        let mut j = i;
        while j < hi && self.kind_at(j, hi) == Some(TokenKind::WHITESPACE)
            invariant
                i <= j <= hi,
                hi <= self.input().len(),
                s == cvs_model(self.input()),
                skip_space(s, j as int, hi as int) == skip_space(s, i as int, hi as int),
            decreases hi - j,
        {
            j = j + 1;
        }
        let k = self.kind_at(j, hi);
        let explicit = if k == Some(TokenKind::DELIM('>')) {
            Some((j + 1, Combinator::CHILD(head(&self.values[j]))))
        } else if k == Some(TokenKind::DELIM('+')) {
            Some((j + 1, Combinator::NEXT_SIBLING(head(&self.values[j]))))
        } else if k == Some(TokenKind::DELIM('~')) {
            Some((j + 1, Combinator::SUBSEQUENT_SIBLING(head(&self.values[j]))))
        } else if k == Some(TokenKind::DELIM('|')) && hi - j >= 2 && self.kind_at(j + 1, hi) == Some(
            TokenKind::DELIM('|'),
        ) {
            Some((j + 2, Combinator::COLUMN(head(&self.values[j]), head(&self.values[j + 1]))))
        } else {
            None
        };
        match explicit {
            Some((next, combinator)) => {
                let mut j = next;
                while j < hi && self.kind_at(j, hi) == Some(TokenKind::WHITESPACE)
                    invariant
                        i < j <= hi,
                        hi <= self.input().len(),
                        s == cvs_model(self.input()),
                        skip_space(s, j as int, hi as int) == skip_space(s, next as int, hi as int),
                    decreases hi - j,
                {
                    j = j + 1;
                }
                Ok((j, combinator))
            },
            None => {
                if j > i {
                    Ok((j, Combinator::DESCENDANT(head(&self.values[i]))))
                } else {
                    Err(self.fail(i, ParseErrorReason::UNEXPECTED_TOKEN))
                }
            },
        }
    }

    /// A complex selector over `lo..hi`, which starts and ends with something other than
    /// whitespace.
    fn parse_complex(&self, lo: usize, hi: usize) -> (r: Result<ComplexSelector, ParseError>)
        requires
            lo < hi <= self.input().len(),
        ensures
            r matches Ok(sel) ==> well_formed_selector(sel),
            r matches Err(e) ==> error_points_into(e, cvs_tokens(self.input())),
            match r {
                Ok(sel) => complex_at(cvs_model(self.input()), lo as int, hi as int) == Ok::<
                    ComplexView,
                    ParseError,
                >(complex_view(sel)),
                Err(e) => complex_at(cvs_model(self.input()), lo as int, hi as int) == Err::<
                    ComplexView,
                    ParseError,
                >(e),
            },
    {
        let ghost s = cvs_model(self.input());
        proof {
            lemma_value_models(self.input());
        }
        let (mut j, unit) = match self.parse_unit(lo, hi) {
            Ok(x) => x,
            Err(e) => return Err(e),
        };
        let mut components: Vec<ComplexSelectorComponent> = Vec::new();
        components.push(ComplexSelectorComponent { combinator: None, unit });
        proof {
            assert(component_views(components@) =~= seq![(None::<Combinator>, unit_view(unit))]);
        }
        while j < hi
            invariant
                lo < j <= hi,
                hi <= self.input().len(),
                s == cvs_model(self.input()),
                components@.len() >= 1,
                components@[0].combinator is None,
                forall|k: int| 1 <= k < components@.len() ==> #[trigger] components@[k].combinator is Some,
                complex_at(s, lo as int, hi as int) == prepend_units(
                    component_views(components@),
                    components_from(s, j as int, hi as int),
                ),
            decreases hi - j,
        {
            let (next, combinator) = match self.parse_combinator(j, hi) {
                Ok(x) => x,
                Err(e) => return Err(e),
            };
            if next == hi {
                return Err(self.fail(j, ParseErrorReason::UNEXPECTED_EOF));
            }
            let (after, unit) = match self.parse_unit(next, hi) {
                Ok(x) => x,
                Err(e) => return Err(e),
            };
            let ghost before = components@;
            let x = ComplexSelectorComponent { combinator: Some(combinator), unit };
            proof {
                lemma_prepend_units_push(
                    component_views(before),
                    (Some(combinator), unit_view(unit)),
                    components_from(s, after as int, hi as int),
                );
                assert(component_views(before.push(x)) =~= component_views(before).push(
                    (Some(combinator), unit_view(unit)),
                ));
            }
            components.push(x);
            proof {
                assert forall|k: int| 1 <= k < components@.len() implies #[trigger] components@[k].combinator is Some by {
                    if k < before.len() {
                        assert(components@[k] == before[k]);
                    }
                }
            }
            j = after;
        }
        proof {
            assert(component_views(components@) + seq![] =~= component_views(components@));
        }
        Ok(ComplexSelector { components })
    }

    fn is_whitespace_at(&self, i: usize) -> (b: bool)
        requires
            i < self.input().len(),
        ensures
            b == (self.input()[i as int] matches ComponentValue::PRESERVED(t) && t.kind == TokenKind::WHITESPACE),
            b == (preserved_kind_of(cvs_model(self.input())[i as int]) == Some(TokenKind::WHITESPACE)),
    {
        proof {
            lemma_value_models(self.input());
        }
        preserved_kind(&self.values[i]) == Some(TokenKind::WHITESPACE)
    }

    /// The selector of the part `start..end` of the list, whose end is a comma or, `at_end`,
    /// the end of the list.
    fn parse_part(&self, start: usize, end: usize, at_end: bool) -> (r: Result<ComplexSelector, ParseError>)
        requires
            start <= end <= self.input().len(),
            !at_end ==> end < self.input().len(),
            at_end ==> end == self.input().len(),
        ensures
            match r {
                Ok(sel) => {
                    &&& part_at(cvs_model(self.input()), start as int, end as int, at_end) == Ok::<
                        ComplexView,
                        ParseError,
                    >(complex_view(sel))
                    &&& well_formed_selector(sel)
                },
                Err(e) => {
                    &&& part_at(cvs_model(self.input()), start as int, end as int, at_end) == Err::<
                        ComplexView,
                        ParseError,
                    >(e)
                    &&& error_points_into(e, cvs_tokens(self.input()))
                },
            },
    {
        let ghost s = cvs_model(self.input());
        let mut lo = start;
        while lo < end && self.is_whitespace_at(lo)
            invariant
                start <= lo <= end,
                end <= self.input().len(),
                s == cvs_model(self.input()),
                skip_space(s, lo as int, end as int) == skip_space(s, start as int, end as int),
            decreases end - lo,
        {
            lo = lo + 1;
        }
        let mut hi = end;
        while hi > lo && self.is_whitespace_at(hi - 1)
            invariant
                lo <= hi <= end,
                end <= self.input().len(),
                s == cvs_model(self.input()),
                trim_space_back(s, lo as int, hi as int) == trim_space_back(s, lo as int, end as int),
            decreases hi - lo,
        {
            hi = hi - 1;
        }
        if lo == hi {
            if !at_end {
                Err(self.fail(end, ParseErrorReason::UNEXPECTED_EOF))
            } else if start > 0 {
                Err(self.fail(start - 1, ParseErrorReason::UNEXPECTED_EOF))
            } else {
                Err(ParseError { reason: ParseErrorReason::UNEXPECTED_EOF, line: 0, span: LexerSpan(0, 0) })
            }
        } else {
            self.parse_complex(lo, hi)
        }
    }

    /// Splits the input at top-level commas and reads one complex selector from each part.
    /// A part that is empty or malformed is left out with one error.
    #[verifier::rlimit(40)]
    pub fn parse_selector_list(&self) -> (r: ParseResult<SelectorList>)
        ensures
            errors_point_into(r.errors@, cvs_tokens(self.input())),
            r.value.selectors@.len() + r.errors@.len() == comma_count(self.input()) + 1,
            forall|i: int|
                0 <= i < r.value.selectors@.len() ==> well_formed_selector(
                    #[trigger] r.value.selectors@[i],
                ),
            complex_views(r.value.selectors@) == successes(parts_from(cvs_model(self.input()), 0)),
            r.errors@ == failures(parts_from(cvs_model(self.input()), 0)),
    {
        let ghost s = cvs_model(self.input());
        proof {
            lemma_cvs_model_index(self.input());
        }
        let n = self.values.len();
        let mut selectors: Vec<ComplexSelector> = Vec::new();
        let mut errors: Vec<ParseError> = Vec::new();
        let mut start: usize = 0;
        let mut i: usize = 0;
        let ghost mut results: Seq<Result<ComplexView, ParseError>> = seq![];
        proof {
            assert(results + parts_from(s, 0) =~= parts_from(s, 0));
            assert(complex_views(selectors@) =~= successes(results));
            assert(errors@ =~= failures(results));
        }
        loop
            invariant_except_break
                selectors@.len() + errors@.len() == comma_count(self.input().take(i as int)),
                results + parts_from(s, start as int) == parts_from(s, 0),
            invariant
                n == self.input().len(),
                s == cvs_model(self.input()),
                s.len() == n,
                start <= i <= n,
                errors_point_into(errors@, cvs_tokens(self.input())),
                forall|k: int| 0 <= k < selectors@.len() ==> well_formed_selector(#[trigger] selectors@[k]),
                next_comma(s, i as int) == next_comma(s, start as int),
                complex_views(selectors@) == successes(results),
                errors@ == failures(results),
            ensures
                selectors@.len() + errors@.len() == comma_count(self.input()) + 1,
                results == parts_from(s, 0),
            decreases n - i,
        {
            let at_end = i == n;
            proof {
                if i < n {
                    lemma_model_at(self.input(), i as int);
                }
            }
            if !at_end && !(preserved_kind(&self.values[i]) == Some(TokenKind::COMMA)) {
                proof {
                    assert(self.input().take(i + 1).drop_last() =~= self.input().take(i as int));
                    assert(!tree_is_comma(s[i as int]));
                    assert(next_comma(s, i as int) == next_comma(s, i + 1));
                }
                i = i + 1;
                continue ;
            }
            let ghost before_s = selectors@;
            let ghost before_e = errors@;
            let ghost part: Result<ComplexView, ParseError>;
            match self.parse_part(start, i, at_end) {
                Ok(selector) => {
                    proof {
                        part = Ok(complex_view(selector));
                    }
                    selectors.push(selector);
                },
                Err(e) => {
                    proof {
                        part = Err(e);
                    }
                    errors.push(e);
                },
            }
            proof {
                lemma_parts_step(s, start as int, i as int, at_end);
                lemma_outcomes_push(results, part);
                if let Ok(c) = part {
                    assert(complex_views(selectors@) =~= complex_views(before_s).push(c));
                } else {
                    assert(selectors@ =~= before_s);
                }
                if !at_end {
                    assert(results.push(part) + parts_from(s, i + 1) =~= results + parts_from(
                        s,
                        start as int,
                    ));
                } else {
                    assert(results.push(part) =~= results + parts_from(s, start as int));
                }
                results = results.push(part);
                assert forall|k: int| 0 <= k < errors@.len() implies error_points_into(#[trigger] errors@[k], cvs_tokens(self.input())) by {
                    if k < before_e.len() {
                        assert(errors@[k] == before_e[k]);
                    }
                }
                assert forall|k: int| 0 <= k < selectors@.len() implies well_formed_selector(#[trigger] selectors@[k]) by {
                    if k < before_s.len() {
                        assert(selectors@[k] == before_s[k]);
                    }
                }
            }
            if at_end {
                proof {
                    assert(self.input().take(n as int) =~= self.input());
                    assert(results =~= parts_from(s, 0));
                }
                break ;
            }
            proof {
                assert(self.input().take(i + 1).drop_last() =~= self.input().take(i as int));
            }
            i = i + 1;
            start = i;
        }
        ParseResult { value: SelectorList { selectors }, errors }
    }
}

/// Reads the selector list of a qualified rule's prelude.
pub fn parse_selector_list(prelude: &[ComponentValue]) -> (r: ParseResult<SelectorList>)
    ensures
        errors_point_into(r.errors@, cvs_tokens(prelude@)),
        r.value.selectors@.len() + r.errors@.len() == comma_count(prelude@) + 1,
        forall|i: int|
            0 <= i < r.value.selectors@.len() ==> well_formed_selector(#[trigger] r.value.selectors@[i]),
        complex_views(r.value.selectors@) == successes(parts_from(cvs_model(prelude@), 0)),
        r.errors@ == failures(parts_from(cvs_model(prelude@), 0)),
{
    SelectorParser::new(prelude).parse_selector_list()
}

} // verus!
