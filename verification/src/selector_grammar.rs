use vstd::prelude::*;
use crate::parser::{cvs_model, ParseError, ParseErrorReason, TokenData, ValueTree};
use crate::selector::{
    AttributeMatcher, AttributeSelector, AttributeValue, Combinator,
    ComplexSelector, ComplexSelectorComponent, ComplexSelectorUnit, CompoundSelector,
    NamespaceName, NamespacePrefix, PseudoClassSelector, PseudoCompoundSelector,
    PseudoElementSelector, QualifiedName, SubclassSelector, TypeSelector,
};
use crate::token::TokenKind;
use crate::types::LexerSpan;

verus! {

/// A pseudo-class: its colon, its name, and the values and closing parenthesis of its
/// arguments.
pub type PseudoClassView = (TokenData, TokenData, Option<(Seq<ValueTree>, TokenData)>);

/// A pseudo-element: its two colons, its name, and its arguments.
pub type PseudoElementView = (TokenData, Option<TokenData>, TokenData, Option<(Seq<ValueTree>, TokenData)>);

/// A subclass selector.
pub enum SubclassView {
    Id(TokenData),
    Class(TokenData, TokenData),
    Attribute(AttributeSelector),
    PseudoClass(PseudoClassView),
}

/// A compound selector: its type selector and its subclass selectors.
pub type CompoundView = (Option<TypeSelector>, Seq<SubclassView>);

/// A pseudo-element and the pseudo-classes after it.
pub type PseudoCompoundView = (PseudoElementView, Seq<PseudoClassView>);

/// A compound selector and the pseudo-element compounds after it.
pub type UnitView = (Option<CompoundView>, Seq<PseudoCompoundView>);

/// A complex selector: its units, each but the first after its combinator.
pub type ComplexView = Seq<(Option<Combinator>, UnitView)>;

/// A pseudo-class selector's view.
pub open spec fn pseudo_class_view(p: PseudoClassSelector) -> PseudoClassView {
    (
        p.colon,
        p.name,
        match p.arguments {
            Some(a) => Some((cvs_model(a.values@), a.closing)),
            None => None,
        },
    )
}

/// The token that stands for a value in diagnostics: the token itself, a block's opening
/// token, or a function's name.
pub open spec fn tree_head(v: ValueTree) -> TokenData {
    match v {
        ValueTree::Token(t) => t,
        ValueTree::Block(o, _, _) => o,
        ValueTree::Call(n, _, _) => n,
    }
}

/// Whether a value is a comma token.
pub open spec fn tree_is_comma(v: ValueTree) -> bool {
    v matches ValueTree::Token(t) && t.kind == TokenKind::COMMA
}

/// The kind of a value that is a single token.
pub open spec fn preserved_kind_of(v: ValueTree) -> Option<TokenKind> {
    match v {
        ValueTree::Token(t) => Some(t.kind),
        _ => None,
    }
}

/// The kind of the preserved token at `i`, where `i` is below `hi`.
pub open spec fn kind_below(s: Seq<ValueTree>, i: int, hi: int) -> Option<TokenKind> {
    if 0 <= i < hi {
        preserved_kind_of(s[i])
    } else {
        None
    }
}

/// The error that selector parsing reports at the value at `k`.
pub open spec fn selector_error(s: Seq<ValueTree>, k: int, reason: ParseErrorReason) -> ParseError {
    ParseError { reason, line: tree_head(s[k]).line, span: tree_head(s[k]).span }
}

/// A name or `*`.
pub open spec fn name_like(k: Option<TokenKind>) -> bool {
    k == Some(TokenKind::IDENT) || k == Some(TokenKind::DELIM('*'))
}

/// The type selector at `i`, if any, and the index after it: `ns|name`, `*|name`, `ns|*`,
/// `*|*`, `|name`, `|*`, `name` or `*`.
pub open spec fn type_selector_at(s: Seq<ValueTree>, i: int, hi: int) -> (int, Option<TypeSelector>) {
    let k0 = kind_below(s, i, hi);
    let k1 = kind_below(s, i + 1, hi);
    let k2 = kind_below(s, i + 2, hi);
    if name_like(k0) && k1 == Some(TokenKind::DELIM('|')) && name_like(k2) {
        let prefix = if k0 == Some(TokenKind::IDENT) {
            NamespaceName::IDENT(tree_head(s[i]))
        } else {
            NamespaceName::STAR(tree_head(s[i]))
        };
        let namespace = Some(NamespacePrefix { prefix: Some(prefix), separator: tree_head(s[i + 1]) });
        let last = tree_head(s[i + 2]);
        (
            i + 3,
            Some(
                if k2 == Some(TokenKind::IDENT) {
                    TypeSelector::QUALIFIED_NAME(QualifiedName { namespace, name: last })
                } else {
                    TypeSelector::UNIVERSAL { namespace, star: last }
                },
            ),
        )
    } else if k0 == Some(TokenKind::DELIM('|')) && name_like(k1) {
        let namespace = Some(NamespacePrefix { prefix: None, separator: tree_head(s[i]) });
        let last = tree_head(s[i + 1]);
        (
            i + 2,
            Some(
                if k1 == Some(TokenKind::IDENT) {
                    TypeSelector::QUALIFIED_NAME(QualifiedName { namespace, name: last })
                } else {
                    TypeSelector::UNIVERSAL { namespace, star: last }
                },
            ),
        )
    } else if k0 == Some(TokenKind::IDENT) {
        (
            i + 1,
            Some(TypeSelector::QUALIFIED_NAME(QualifiedName { namespace: None, name: tree_head(s[i]) })),
        )
    } else if k0 == Some(TokenKind::DELIM('*')) {
        (i + 1, Some(TypeSelector::UNIVERSAL { namespace: None, star: tree_head(s[i]) }))
    } else {
        (i, None)
    }
}

/// The pseudo-class whose colon is at `i`: an identifier, or a closed function whose values
/// are its arguments; and the index after it.
pub open spec fn pseudo_class_at(s: Seq<ValueTree>, i: int, hi: int) -> Result<
    (int, PseudoClassView),
    ParseError,
> {
    let colon = tree_head(s[i]);
    if hi - i < 2 {
        Err(selector_error(s, i, ParseErrorReason::UNEXPECTED_EOF))
    } else {
        match s[i + 1] {
            ValueTree::Token(t) => if t.kind == TokenKind::IDENT {
                Ok((i + 2, (colon, t, None)))
            } else {
                Err(selector_error(s, i + 1, ParseErrorReason::UNEXPECTED_TOKEN))
            },
            ValueTree::Call(name, values, closing) => match closing {
                Some(closing) => Ok((i + 2, (colon, name, Some((values, closing))))),
                None => Err(selector_error(s, i + 1, ParseErrorReason::UNEXPECTED_EOF)),
            },
            ValueTree::Block(..) => Err(selector_error(s, i + 1, ParseErrorReason::UNEXPECTED_TOKEN)),
        }
    }
}

/// The first index from `j` on, below `hi`, whose value is not whitespace.
pub open spec fn skip_space(s: Seq<ValueTree>, j: int, hi: int) -> int
    decreases hi - j,
{
    if 0 <= j < hi && kind_below(s, j, hi) == Some(TokenKind::WHITESPACE) {
        skip_space(s, j + 1, hi)
    } else {
        j
    }
}

/// The attribute selector that a `[...]` block holds, if it holds one: a name with an
/// optional namespace, then optionally a matcher, a string or identifier value, and a
/// modifier, with whitespace anywhere between; none for an unclosed block.
pub open spec fn attribute_of(
    opening: TokenData,
    v: Seq<ValueTree>,
    closing: Option<TokenData>,
) -> Option<AttributeSelector> {
    let n = v.len() as int;
    let j0 = skip_space(v, 0, n);
    let k0 = kind_below(v, j0, n);
    let k1 = kind_below(v, j0 + 1, n);
    let k2 = kind_below(v, j0 + 2, n);
    let named: Option<(QualifiedName, int)> = if (k0 == Some(TokenKind::IDENT) || k0 == Some(
        TokenKind::DELIM('*'),
    )) && k1 == Some(TokenKind::DELIM('|')) && k2 == Some(TokenKind::IDENT) {
        let prefix = if k0 == Some(TokenKind::IDENT) {
            NamespaceName::IDENT(tree_head(v[j0]))
        } else {
            NamespaceName::STAR(tree_head(v[j0]))
        };
        Some(
            (
                QualifiedName {
                    namespace: Some(
                        NamespacePrefix { prefix: Some(prefix), separator: tree_head(v[j0 + 1]) },
                    ),
                    name: tree_head(v[j0 + 2]),
                },
                j0 + 3,
            ),
        )
    } else if k0 == Some(TokenKind::DELIM('|')) && k1 == Some(TokenKind::IDENT) {
        Some(
            (
                QualifiedName {
                    namespace: Some(NamespacePrefix { prefix: None, separator: tree_head(v[j0]) }),
                    name: tree_head(v[j0 + 1]),
                },
                j0 + 2,
            ),
        )
    } else if k0 == Some(TokenKind::IDENT) {
        Some((QualifiedName { namespace: None, name: tree_head(v[j0]) }, j0 + 1))
    } else {
        None
    };
    match (closing, named) {
        (Some(closing), Some((name, after_name))) => {
            let j1 = skip_space(v, after_name, n);
            if j1 == n {
                Some(
                    AttributeSelector {
                        opening,
                        name,
                        matcher: None,
                        value: None,
                        modifier: None,
                        closing,
                    },
                )
            } else {
                let m0 = kind_below(v, j1, n);
                let m1 = kind_below(v, j1 + 1, n);
                let matched: Option<(AttributeMatcher, int)> = if m0 == Some(TokenKind::DELIM('=')) {
                    Some((AttributeMatcher { operator: None, equals: tree_head(v[j1]) }, j1 + 1))
                } else if (m0 == Some(TokenKind::DELIM('~')) || m0 == Some(TokenKind::DELIM('|'))
                    || m0 == Some(TokenKind::DELIM('^')) || m0 == Some(TokenKind::DELIM('$')) || m0
                    == Some(TokenKind::DELIM('*'))) && m1 == Some(TokenKind::DELIM('=')) {
                    Some(
                        (
                            AttributeMatcher {
                                operator: Some(tree_head(v[j1])),
                                equals: tree_head(v[j1 + 1]),
                            },
                            j1 + 2,
                        ),
                    )
                } else {
                    None
                };
                match matched {
                    Some((matcher, after_matcher)) => {
                        let j2 = skip_space(v, after_matcher, n);
                        let value = if kind_below(v, j2, n) == Some(TokenKind::STRING) {
                            Some(AttributeValue::STRING(tree_head(v[j2])))
                        } else if kind_below(v, j2, n) == Some(TokenKind::IDENT) {
                            Some(AttributeValue::IDENT(tree_head(v[j2])))
                        } else {
                            None
                        };
                        match value {
                            Some(value) => {
                                let j3 = skip_space(v, j2 + 1, n);
                                let (modifier, j4) = if kind_below(v, j3, n) == Some(
                                    TokenKind::IDENT,
                                ) {
                                    (Some(tree_head(v[j3])), skip_space(v, j3 + 1, n))
                                } else {
                                    (None, j3)
                                };
                                if j4 == n {
                                    Some(
                                        AttributeSelector {
                                            opening,
                                            name,
                                            matcher: Some(matcher),
                                            value: Some(value),
                                            modifier,
                                            closing,
                                        },
                                    )
                                } else {
                                    None
                                }
                            },
                            None => None,
                        }
                    },
                    None => None,
                }
            }
        },
        _ => None,
    }
}

/// `x` before the items of `rest`, where `rest` is a success.
pub open spec fn prepend<T>(x: T, rest: Result<(int, Seq<T>), ParseError>) -> Result<(int, Seq<T>), ParseError> {
    match rest {
        Ok((k, xs)) => Ok((k, seq![x] + xs)),
        Err(e) => Err(e),
    }
}

/// `xs` before the items of `rest`, where `rest` is a success.
pub open spec fn prepend_all<T>(xs: Seq<T>, rest: Result<(int, Seq<T>), ParseError>) -> Result<(int, Seq<T>), ParseError> {
    match rest {
        Ok((k, ys)) => Ok((k, xs + ys)),
        Err(e) => Err(e),
    }
}

/// The subclass selectors from `j` on: ids, classes, attributes and pseudo-classes, up to
/// `hi`, a `::`, or a value that starts none of them; and the index after them.
pub open spec fn subclasses_from(s: Seq<ValueTree>, j: int, hi: int) -> Result<(int, Seq<SubclassView>), ParseError>
    decreases hi - j,
{
    if j < 0 || j >= hi {
        Ok((j, seq![]))
    } else {
        match s[j] {
            ValueTree::Token(t) => if t.kind == TokenKind::ID_HASH {
                prepend(SubclassView::Id(t), subclasses_from(s, j + 1, hi))
            } else if t.kind == TokenKind::DELIM('.') {
                if hi - j >= 2 && kind_below(s, j + 1, hi) == Some(TokenKind::IDENT) {
                    prepend(SubclassView::Class(t, tree_head(s[j + 1])), subclasses_from(s, j + 2, hi))
                } else {
                    Err(selector_error(s, j, ParseErrorReason::UNEXPECTED_TOKEN))
                }
            } else if t.kind == TokenKind::COLON {
                if hi - j >= 2 && kind_below(s, j + 1, hi) == Some(TokenKind::COLON) {
                    Ok((j, seq![]))
                } else {
                    match pseudo_class_at(s, j, hi) {
                        Ok((n, p)) => prepend(SubclassView::PseudoClass(p), subclasses_from(s, n, hi)),
                        Err(e) => Err(e),
                    }
                }
            } else {
                Ok((j, seq![]))
            },
            ValueTree::Block(opening, values, closing) => if opening.kind
                != TokenKind::BRACKET_OPEN {
                Ok((j, seq![]))
            } else {
                match attribute_of(opening, values, closing) {
                    Some(a) => prepend(SubclassView::Attribute(a), subclasses_from(s, j + 1, hi)),
                    None => Err(selector_error(s, j, ParseErrorReason::UNEXPECTED_TOKEN)),
                }
            },
            ValueTree::Call(..) => Ok((j, seq![])),
        }
    }
}

/// The compound selector at `i`, if any: a type selector and subclass selectors; and the
/// index after it.
pub open spec fn compound_at(s: Seq<ValueTree>, i: int, hi: int) -> Result<(int, Option<CompoundView>), ParseError> {
    let t = type_selector_at(s, i, hi);
    match subclasses_from(s, t.0, hi) {
        Ok((j, subs)) => Ok(
            (
                j,
                if t.1 is None && subs.len() == 0 {
                    None
                } else {
                    Some((t.1, subs))
                },
            ),
        ),
        Err(e) => Err(e),
    }
}

/// The pseudo-classes from `j` on, each a `:` not followed by another `:`.
pub open spec fn pseudo_classes_from(s: Seq<ValueTree>, j: int, hi: int) -> Result<(int, Seq<PseudoClassView>), ParseError>
    decreases hi - j,
{
    if 0 <= j < hi && kind_below(s, j, hi) == Some(TokenKind::COLON) && !(hi - j >= 2 && kind_below(
        s,
        j + 1,
        hi,
    ) == Some(TokenKind::COLON)) {
        match pseudo_class_at(s, j, hi) {
            Ok((n, p)) => prepend(p, pseudo_classes_from(s, n, hi)),
            Err(e) => Err(e),
        }
    } else {
        Ok((j, seq![]))
    }
}

pub proof fn lemma_pseudo_classes_from(s: Seq<ValueTree>, j: int, hi: int)
    requires
        0 <= j <= hi,
    ensures
        pseudo_classes_from(s, j, hi) matches Ok((k, _)) ==> j <= k <= hi,
    decreases hi - j,
{
    if j < hi && kind_below(s, j, hi) == Some(TokenKind::COLON) && !(hi - j >= 2 && kind_below(
        s,
        j + 1,
        hi,
    ) == Some(TokenKind::COLON)) {
        if let Ok((n, p)) = pseudo_class_at(s, j, hi) {
            lemma_pseudo_classes_from(s, n, hi);
        }
    }
}

/// The pseudo-element compound whose first colon is at `i` (a `::` starts there): the
/// pseudo-element's name or closed function, then its pseudo-classes.
pub open spec fn pseudo_compound_at(s: Seq<ValueTree>, i: int, hi: int) -> Result<(int, PseudoCompoundView), ParseError> {
    let first = tree_head(s[i]);
    let second = Some(tree_head(s[i + 1]));
    if hi - i < 3 {
        Err(selector_error(s, i + 1, ParseErrorReason::UNEXPECTED_EOF))
    } else {
        let named: Result<(TokenData, Option<(Seq<ValueTree>, TokenData)>), ParseError> = match s[i + 2] {
            ValueTree::Token(t) => if t.kind == TokenKind::IDENT {
                Ok((t, None))
            } else {
                Err(selector_error(s, i + 2, ParseErrorReason::UNEXPECTED_TOKEN))
            },
            ValueTree::Call(name, values, closing) => match closing {
                Some(closing) => Ok((name, Some((values, closing)))),
                None => Err(selector_error(s, i + 2, ParseErrorReason::UNEXPECTED_EOF)),
            },
            ValueTree::Block(..) => Err(selector_error(s, i + 2, ParseErrorReason::UNEXPECTED_TOKEN)),
        };
        match named {
            Ok((name, arguments)) => match pseudo_classes_from(s, i + 3, hi) {
                Ok((j, classes)) => Ok((j, ((first, second, name, arguments), classes))),
                Err(e) => Err(e),
            },
            Err(e) => Err(e),
        }
    }
}

pub proof fn lemma_pseudo_compound_at(s: Seq<ValueTree>, i: int, hi: int)
    requires
        0 <= i,
        i + 1 < hi,
    ensures
        pseudo_compound_at(s, i, hi) matches Ok((k, _)) ==> i < k <= hi,
{
    if hi - i >= 3 {
        lemma_pseudo_classes_from(s, i + 3, hi);
    }
}

/// The pseudo-element compounds from `j` on, each starting with `::`.
pub open spec fn pseudo_compounds_from(s: Seq<ValueTree>, j: int, hi: int) -> Result<(int, Seq<PseudoCompoundView>), ParseError>
    decreases hi - j,
{
    if 0 <= j && hi - j >= 2 && kind_below(s, j, hi) == Some(TokenKind::COLON) && kind_below(
        s,
        j + 1,
        hi,
    ) == Some(TokenKind::COLON) {
        proof {
            lemma_pseudo_compound_at(s, j, hi);
        }
        match pseudo_compound_at(s, j, hi) {
            Ok((n, pc)) => prepend(pc, pseudo_compounds_from(s, n, hi)),
            Err(e) => Err(e),
        }
    } else {
        Ok((j, seq![]))
    }
}

/// The unit at `i`: a compound selector and pseudo-element compounds, at least one of them.
pub open spec fn unit_at(s: Seq<ValueTree>, i: int, hi: int) -> Result<(int, UnitView), ParseError> {
    match compound_at(s, i, hi) {
        Ok((j, compound)) => match pseudo_compounds_from(s, j, hi) {
            Ok((k, pcs)) => if compound is None && pcs.len() == 0 {
                Err(selector_error(s, i, ParseErrorReason::UNEXPECTED_TOKEN))
            } else {
                Ok((k, (compound, pcs)))
            },
            Err(e) => Err(e),
        },
        Err(e) => Err(e),
    }
}

/// The combinator at `i`: whitespace, or `>`, `+`, `~` or `||` with optional whitespace
/// around it; and the index after it.
pub open spec fn combinator_at(s: Seq<ValueTree>, i: int, hi: int) -> Result<(int, Combinator), ParseError> {
    let j = skip_space(s, i, hi);
    let k = kind_below(s, j, hi);
    let explicit: Option<(int, Combinator)> = if k == Some(TokenKind::DELIM('>')) {
        Some((j + 1, Combinator::CHILD(tree_head(s[j]))))
    } else if k == Some(TokenKind::DELIM('+')) {
        Some((j + 1, Combinator::NEXT_SIBLING(tree_head(s[j]))))
    } else if k == Some(TokenKind::DELIM('~')) {
        Some((j + 1, Combinator::SUBSEQUENT_SIBLING(tree_head(s[j]))))
    } else if k == Some(TokenKind::DELIM('|')) && hi - j >= 2 && kind_below(s, j + 1, hi) == Some(
        TokenKind::DELIM('|'),
    ) {
        Some((j + 2, Combinator::COLUMN(tree_head(s[j]), tree_head(s[j + 1]))))
    } else {
        None
    };
    match explicit {
        Some((next, c)) => Ok((skip_space(s, next, hi), c)),
        None => if j > i {
            Ok((j, Combinator::DESCENDANT(tree_head(s[i]))))
        } else {
            Err(selector_error(s, i, ParseErrorReason::UNEXPECTED_TOKEN))
        },
    }
}

pub proof fn lemma_skip_space(s: Seq<ValueTree>, j: int, hi: int)
    requires
        0 <= j <= hi,
    ensures
        j <= skip_space(s, j, hi) <= hi,
    decreases hi - j,
{
    if j < hi && kind_below(s, j, hi) == Some(TokenKind::WHITESPACE) {
        lemma_skip_space(s, j + 1, hi);
    }
}

pub proof fn lemma_combinator_at(s: Seq<ValueTree>, i: int, hi: int)
    requires
        0 <= i < hi,
    ensures
        combinator_at(s, i, hi) matches Ok((k, _)) ==> i < k <= hi,
{
    lemma_skip_space(s, i, hi);
    let j = skip_space(s, i, hi);
    if j + 1 <= hi {
        lemma_skip_space(s, j + 1, hi);
    }
    if j + 2 <= hi {
        lemma_skip_space(s, j + 2, hi);
    }
}

pub proof fn lemma_subclasses_from(s: Seq<ValueTree>, j: int, hi: int)
    requires
        0 <= j <= hi,
    ensures
        subclasses_from(s, j, hi) matches Ok((k, xs)) ==> j <= k <= hi && (xs.len() > 0 ==> j < k),
    decreases hi - j,
{
    if j < hi {
        match s[j] {
            ValueTree::Token(t) => {
                if t.kind == TokenKind::ID_HASH {
                    lemma_subclasses_from(s, j + 1, hi);
                } else if t.kind == TokenKind::DELIM('.') {
                    if hi - j >= 2 && kind_below(s, j + 1, hi) == Some(TokenKind::IDENT) {
                        lemma_subclasses_from(s, j + 2, hi);
                    }
                } else if t.kind == TokenKind::COLON {
                    if let Ok((n, p)) = pseudo_class_at(s, j, hi) {
                        lemma_subclasses_from(s, n, hi);
                    }
                }
            },
            ValueTree::Block(..) => {
                lemma_subclasses_from(s, j + 1, hi);
            },
            ValueTree::Call(..) => {},
        }
    }
}

pub proof fn lemma_pseudo_compounds_from(s: Seq<ValueTree>, j: int, hi: int)
    requires
        0 <= j <= hi,
    ensures
        pseudo_compounds_from(s, j, hi) matches Ok((k, xs)) ==> j <= k <= hi && (xs.len() > 0 ==> j < k),
    decreases hi - j,
{
    if hi - j >= 2 && kind_below(s, j, hi) == Some(TokenKind::COLON) && kind_below(s, j + 1, hi)
        == Some(TokenKind::COLON) {
        lemma_pseudo_compound_at(s, j, hi);
        if let Ok((n, pc)) = pseudo_compound_at(s, j, hi) {
            lemma_pseudo_compounds_from(s, n, hi);
        }
    }
}

pub proof fn lemma_unit_at(s: Seq<ValueTree>, i: int, hi: int)
    requires
        0 <= i <= hi,
    ensures
        unit_at(s, i, hi) matches Ok((k, _)) ==> i < k <= hi,
{
    let t = type_selector_at(s, i, hi);
    lemma_subclasses_from(s, t.0, hi);
    if let Ok((j, c)) = compound_at(s, i, hi) {
        lemma_pseudo_compounds_from(s, j, hi);
    }
}

/// The units after the first of a complex selector, from `j` on, each after its combinator.
pub open spec fn components_from(s: Seq<ValueTree>, j: int, hi: int) -> Result<ComplexView, ParseError>
    decreases hi - j,
{
    if j < 0 || j >= hi {
        Ok(seq![])
    } else {
        proof {
            lemma_combinator_at(s, j, hi);
        }
        match combinator_at(s, j, hi) {
            Ok((next, c)) => if next == hi {
                Err(selector_error(s, j, ParseErrorReason::UNEXPECTED_EOF))
            } else {
                proof {
                    lemma_unit_at(s, next, hi);
                }
                match unit_at(s, next, hi) {
                    Ok((after, u)) => match components_from(s, after, hi) {
                        Ok(cs) => Ok(seq![(Some(c), u)] + cs),
                        Err(e) => Err(e),
                    },
                    Err(e) => Err(e),
                }
            },
            Err(e) => Err(e),
        }
    }
}

/// The complex selector over `lo..hi`: a unit, then combinators and units.
pub open spec fn complex_at(s: Seq<ValueTree>, lo: int, hi: int) -> Result<ComplexView, ParseError> {
    match unit_at(s, lo, hi) {
        Ok((j, u)) => match components_from(s, j, hi) {
            Ok(cs) => Ok(seq![(None, u)] + cs),
            Err(e) => Err(e),
        },
        Err(e) => Err(e),
    }
}

/// The index of the first comma from `i` on, or the end.
pub open spec fn next_comma(s: Seq<ValueTree>, i: int) -> int
    decreases s.len() - i,
{
    if 0 <= i < s.len() && !tree_is_comma(s[i]) {
        next_comma(s, i + 1)
    } else {
        i
    }
}

pub proof fn lemma_next_comma(s: Seq<ValueTree>, i: int)
    requires
        0 <= i <= s.len(),
    ensures
        i <= next_comma(s, i) <= s.len(),
    decreases s.len() - i,
{
    if i < s.len() && !tree_is_comma(s[i]) {
        lemma_next_comma(s, i + 1);
    }
}

/// The end of `lo..hi` without its trailing whitespace.
pub open spec fn trim_space_back(s: Seq<ValueTree>, lo: int, hi: int) -> int
    decreases hi - lo,
{
    if hi > lo && kind_below(s, hi - 1, hi) == Some(TokenKind::WHITESPACE) {
        trim_space_back(s, lo, hi - 1)
    } else {
        hi
    }
}

/// The selector of the part `start..end` of a list, whose end is a comma or, `at_end`, the
/// end of the list: whitespace around it is left out, and an empty part is an unexpected end
/// at the comma that ends it, else at the comma before it, else at no token.
pub open spec fn part_at(s: Seq<ValueTree>, start: int, end: int, at_end: bool) -> Result<ComplexView, ParseError> {
    let lo = skip_space(s, start, end);
    let hi = trim_space_back(s, lo, end);
    if lo == hi {
        Err(
            if !at_end {
                selector_error(s, end, ParseErrorReason::UNEXPECTED_EOF)
            } else if start > 0 {
                selector_error(s, start - 1, ParseErrorReason::UNEXPECTED_EOF)
            } else {
                ParseError { reason: ParseErrorReason::UNEXPECTED_EOF, line: 0, span: LexerSpan(0, 0) }
            },
        )
    } else {
        complex_at(s, lo, hi)
    }
}

/// The selectors of the parts of a list from `start` on, one per part between commas.
pub open spec fn parts_from(s: Seq<ValueTree>, start: int) -> Seq<Result<ComplexView, ParseError>>
    decreases s.len() - start,
{
    let end = next_comma(s, start);
    if start < 0 || end >= s.len() {
        seq![part_at(s, start, s.len() as int, true)]
    } else {
        proof {
            lemma_next_comma(s, start);
        }
        seq![part_at(s, start, end, false)] + parts_from(s, end + 1)
    }
}

/// The selectors among `rs`, in order.
pub open spec fn successes(rs: Seq<Result<ComplexView, ParseError>>) -> Seq<ComplexView>
    decreases rs.len(),
{
    if rs.len() == 0 {
        seq![]
    } else {
        let rest = successes(rs.drop_last());
        match rs.last() {
            Ok(c) => rest.push(c),
            Err(_) => rest,
        }
    }
}

/// The errors among `rs`, in order.
pub open spec fn failures(rs: Seq<Result<ComplexView, ParseError>>) -> Seq<ParseError>
    decreases rs.len(),
{
    if rs.len() == 0 {
        seq![]
    } else {
        let rest = failures(rs.drop_last());
        match rs.last() {
            Ok(_) => rest,
            Err(e) => rest.push(e),
        }
    }
}

pub open spec fn pseudo_element_view(e: PseudoElementSelector) -> PseudoElementView {
    (
        e.first_colon,
        e.second_colon,
        e.name,
        match e.arguments {
            Some(a) => Some((cvs_model(a.values@), a.closing)),
            None => None,
        },
    )
}

pub open spec fn subclass_view(x: SubclassSelector) -> SubclassView {
    match x {
        SubclassSelector::ID(i) => SubclassView::Id(i.hash),
        SubclassSelector::CLASS(c) => SubclassView::Class(c.dot, c.name),
        SubclassSelector::ATTRIBUTE(a) => SubclassView::Attribute(a),
        SubclassSelector::PSEUDO_CLASS(p) => SubclassView::PseudoClass(pseudo_class_view(p)),
    }
}

pub open spec fn compound_view(c: CompoundSelector) -> CompoundView {
    (c.type_selector, subclass_views(c.subclass_selectors@))
}

pub open spec fn pseudo_compound_view(p: PseudoCompoundSelector) -> PseudoCompoundView {
    (pseudo_element_view(p.pseudo_element), pseudo_class_views(p.pseudo_classes@))
}

pub open spec fn unit_view(u: ComplexSelectorUnit) -> UnitView {
    (
        match u.compound {
            Some(c) => Some(compound_view(c)),
            None => None,
        },
        pseudo_compound_views(u.pseudo_compounds@),
    )
}

pub open spec fn complex_view(c: ComplexSelector) -> ComplexView {
    component_views(c.components@)
}

pub open spec fn complex_views(cs: Seq<ComplexSelector>) -> Seq<ComplexView> {
    cs.map_values(|c: ComplexSelector| complex_view(c))
}

/// Prepending `xs` to what prepending `x` gives is prepending `xs` and then `x`.
pub proof fn lemma_prepend_all_push<T>(xs: Seq<T>, x: T, rest: Result<(int, Seq<T>), ParseError>)
    ensures
        prepend_all(xs, prepend(x, rest)) == prepend_all(xs.push(x), rest),
{
    if let Ok((k, ys)) = rest {
        assert(xs + (seq![x] + ys) =~= xs.push(x) + ys);
    }
}

pub open spec fn subclass_views(v: Seq<SubclassSelector>) -> Seq<SubclassView> {
    v.map_values(|x: SubclassSelector| subclass_view(x))
}

pub open spec fn pseudo_class_views(v: Seq<PseudoClassSelector>) -> Seq<PseudoClassView> {
    v.map_values(|q: PseudoClassSelector| pseudo_class_view(q))
}

pub open spec fn pseudo_compound_views(v: Seq<PseudoCompoundSelector>) -> Seq<PseudoCompoundView> {
    v.map_values(|p: PseudoCompoundSelector| pseudo_compound_view(p))
}

pub open spec fn component_views(v: Seq<ComplexSelectorComponent>) -> ComplexView {
    v.map_values(|x: ComplexSelectorComponent| (x.combinator, unit_view(x.unit)))
}

/// `done` before the units of `rest`, where `rest` is a success.
pub open spec fn prepend_units(done: ComplexView, rest: Result<ComplexView, ParseError>) -> Result<ComplexView, ParseError> {
    match rest {
        Ok(cs) => Ok(done + cs),
        Err(e) => Err(e),
    }
}

pub proof fn lemma_prepend_units_push(
    done: ComplexView,
    x: (Option<Combinator>, UnitView),
    rest: Result<ComplexView, ParseError>,
)
    ensures
        prepend_units(done, prepend_units(seq![x], rest)) == prepend_units(done.push(x), rest),
{
    if let Ok(cs) = rest {
        assert(done + (seq![x] + cs) =~= done.push(x) + cs);
    }
}

/// The parts of a list from `start`: the part that ends at `i` (the next comma, or the end),
/// then those after it.
pub proof fn lemma_parts_step(s: Seq<ValueTree>, start: int, i: int, at_end: bool)
    requires
        0 <= start <= i <= s.len(),
        next_comma(s, i) == next_comma(s, start),
        at_end <==> i == s.len(),
        !at_end ==> tree_is_comma(s[i]),
    ensures
        parts_from(s, start) == seq![part_at(s, start, i, at_end)] + if at_end {
            Seq::<Result<ComplexView, ParseError>>::empty()
        } else {
            parts_from(s, i + 1)
        },
{
    if at_end {
        assert(seq![part_at(s, start, i, at_end)] + Seq::<Result<ComplexView, ParseError>>::empty()
            =~= seq![part_at(s, start, i, at_end)]);
    }
}

/// One more outcome: a selector joins the selectors, an error the errors.
pub proof fn lemma_outcomes_push(rs: Seq<Result<ComplexView, ParseError>>, x: Result<ComplexView, ParseError>)
    ensures
        successes(rs.push(x)) == match x {
            Ok(c) => successes(rs).push(c),
            Err(_) => successes(rs),
        },
        failures(rs.push(x)) == match x {
            Ok(_) => failures(rs),
            Err(e) => failures(rs).push(e),
        },
{
    assert(rs.push(x).drop_last() =~= rs);
}

} // verus!

verus! {

/// A combinator's kind is fixed by the token it stands on: `+` is the next-sibling
/// combinator, `~` the subsequent-sibling one, `>` the child one, `||` the column one, and
/// whitespace alone the descendant one.
pub proof fn law_combinator_kind_follows_its_token(s: Seq<ValueTree>, i: int, hi: int)
    requires
        0 <= i < hi <= s.len(),
    ensures
        combinator_at(s, i, hi) matches Ok((_, c)) ==> match c {
            Combinator::NEXT_SIBLING(t) => t.kind == TokenKind::DELIM('+'),
            Combinator::SUBSEQUENT_SIBLING(t) => t.kind == TokenKind::DELIM('~'),
            Combinator::CHILD(t) => t.kind == TokenKind::DELIM('>'),
            Combinator::COLUMN(a, b) => a.kind == TokenKind::DELIM('|') && b.kind == TokenKind::DELIM(
                '|',
            ),
            Combinator::DESCENDANT(t) => t.kind == TokenKind::WHITESPACE,
        },
{
    lemma_skip_space(s, i, hi);
    let j = skip_space(s, i, hi);
    if j > i {
        assert(kind_below(s, i, hi) == Some(TokenKind::WHITESPACE));
    }
}

/// Conversely, a `+`, `~` or `>` token after optional whitespace gives the combinator of its
/// kind, holding that token.
pub proof fn law_delimiters_give_their_combinators(s: Seq<ValueTree>, i: int, hi: int)
    requires
        0 <= i < hi <= s.len(),
    ensures
        ({
            let j = skip_space(s, i, hi);
            &&& kind_below(s, j, hi) == Some(TokenKind::DELIM('+')) ==> (combinator_at(s, i, hi) matches Ok(
                (_, Combinator::NEXT_SIBLING(t)),
            ) && t == tree_head(s[j]))
            &&& kind_below(s, j, hi) == Some(TokenKind::DELIM('~')) ==> (combinator_at(s, i, hi) matches Ok(
                (_, Combinator::SUBSEQUENT_SIBLING(t)),
            ) && t == tree_head(s[j]))
            &&& kind_below(s, j, hi) == Some(TokenKind::DELIM('>')) ==> (combinator_at(s, i, hi) matches Ok(
                (_, Combinator::CHILD(t)),
            ) && t == tree_head(s[j]))
        }),
{
}

/// A subclass selector is what its tokens say: an id selector stands on an id hash, a class
/// selector on a `.` followed by an identifier.
pub open spec fn subclass_fits_its_tokens(v: SubclassView) -> bool {
    match v {
        SubclassView::Id(t) => t.kind == TokenKind::ID_HASH,
        SubclassView::Class(dot, name) => dot.kind == TokenKind::DELIM('.') && name.kind
            == TokenKind::IDENT,
        _ => true,
    }
}

/// Every id and class selector read from a run of subclass selectors stands on the tokens of
/// its kind: an id hash, or a `.` and an identifier.
pub proof fn law_subclass_selectors_fit_their_tokens(s: Seq<ValueTree>, j: int, hi: int)
    ensures
        subclasses_from(s, j, hi) matches Ok((_, subs)) ==> forall|k: int|
            0 <= k < subs.len() ==> subclass_fits_its_tokens(#[trigger] subs[k]),
    decreases hi - j,
{
    if 0 <= j < hi {
        match s[j] {
            ValueTree::Token(t) => {
                if t.kind == TokenKind::ID_HASH {
                    law_subclass_selectors_fit_their_tokens(s, j + 1, hi);
                    if let Ok((_, rest)) = subclasses_from(s, j + 1, hi) {
                        let subs = seq![SubclassView::Id(t)] + rest;
                        assert forall|k: int| 0 <= k < subs.len() implies subclass_fits_its_tokens(
                            #[trigger] subs[k],
                        ) by {
                            if k > 0 {
                                assert(subs[k] == rest[k - 1]);
                            }
                        }
                    }
                } else if t.kind == TokenKind::DELIM('.') {
                    if hi - j >= 2 && kind_below(s, j + 1, hi) == Some(TokenKind::IDENT) {
                        law_subclass_selectors_fit_their_tokens(s, j + 2, hi);
                        if let Ok((_, rest)) = subclasses_from(s, j + 2, hi) {
                            let subs = seq![SubclassView::Class(t, tree_head(s[j + 1]))] + rest;
                            assert forall|k: int| 0 <= k < subs.len() implies subclass_fits_its_tokens(
                                #[trigger] subs[k],
                            ) by {
                                if k > 0 {
                                    assert(subs[k] == rest[k - 1]);
                                }
                            }
                        }
                    }
                } else if t.kind == TokenKind::COLON {
                    if !(hi - j >= 2 && kind_below(s, j + 1, hi) == Some(TokenKind::COLON)) {
                        if let Ok((n, p)) = pseudo_class_at(s, j, hi) {
                            law_subclass_selectors_fit_their_tokens(s, n, hi);
                            if let Ok((_, rest)) = subclasses_from(s, n, hi) {
                                let subs = seq![SubclassView::PseudoClass(p)] + rest;
                                assert forall|k: int| 0 <= k < subs.len() implies subclass_fits_its_tokens(
                                    #[trigger] subs[k],
                                ) by {
                                    if k > 0 {
                                        assert(subs[k] == rest[k - 1]);
                                    }
                                }
                            }
                        }
                    }
                }
            },
            ValueTree::Block(opening, values, closing) => {
                if opening.kind == TokenKind::BRACKET_OPEN {
                    if let Some(a) = attribute_of(opening, values, closing) {
                        law_subclass_selectors_fit_their_tokens(s, j + 1, hi);
                        if let Ok((_, rest)) = subclasses_from(s, j + 1, hi) {
                            let subs = seq![SubclassView::Attribute(a)] + rest;
                            assert forall|k: int| 0 <= k < subs.len() implies subclass_fits_its_tokens(
                                #[trigger] subs[k],
                            ) by {
                                if k > 0 {
                                    assert(subs[k] == rest[k - 1]);
                                }
                            }
                        }
                    }
                }
            },
            ValueTree::Call(..) => {},
        }
    }
}

} // verus!
