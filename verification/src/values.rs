use vstd::prelude::*;
use crate::chars::{ascii_digit, ascii_hex_digit, is_ascii_digit, is_ascii_hex_digit};
use crate::parser::{cv_model, cvs_model, ComponentValue, Declaration, Function, TokenData, ValueTree};
use crate::resolver::{
    char_at_byte, char_index_at_byte, errors_view, resolution, resolve_variables, run_string,
    source_chars, tree_size, trees_size, ResolutionErrorView, ResolutionResult, VariableResolutionError,
    VariableResolver,
};
use crate::token::TokenKind;
use crate::types::LexerSpan;

verus! {

// ---------------------------------------------------------------------------------------------
// Values.
// ---------------------------------------------------------------------------------------------

#[derive(Debug, Clone, Copy, PartialEq, Eq, Structural)]
pub enum ListSeparator {
    Whitespace,
    Comma,
    Slash,
    Mixed,
}

#[derive(Debug, Clone, PartialEq, Eq)]
pub enum Color {
    Hex { value: u32, digits: usize, span: LexerSpan },
    Named(TokenData),
    Function(Function),
}

#[derive(Debug, PartialEq)]
pub enum Value {
    Number(NumericLiteral),
    Color(Color),
    String(TokenData),
    Keyword(TokenData),
    Url(TokenData),
    Function(Function),
    List { items: Vec<Value>, separator: ListSeparator },
    Raw(Vec<ComponentValue>),
}

#[derive(Debug, PartialEq)]
pub enum Expr {
    Literal(NumericLiteral),
    Add(Box<Expr>, Box<Expr>),
    Subtract(Box<Expr>, Box<Expr>),
    Multiply(Box<Expr>, Box<Expr>),
    Divide(Box<Expr>, Box<Expr>),
    Group(Box<Expr>),
    Min(Vec<Expr>),
    Max(Vec<Expr>),
    Clamp { min: Box<Expr>, value: Box<Expr>, max: Box<Expr> },
}

#[derive(Debug, Clone, PartialEq, Eq)]
pub enum NumericType {
    Number,
    Percentage,
    Dimension(String),
}

/// A number with its unit. `value` is the number as written in the source, in the syntax of
/// Rust's floating-point literals (`"1.5"`, `"-2e3"`); `unit` is `%` for a percentage and the
/// unit's text for a dimension.
#[derive(Debug, Clone, PartialEq)]
pub struct NumericLiteral {
    pub value: String,
    pub unit: Option<String>,
    pub span: LexerSpan,
}

#[allow(non_camel_case_types)]
#[derive(Debug, Clone, Copy, PartialEq, Eq, Structural)]
pub enum ExpressionErrorReason {
    UNEXPECTED_TOKEN,
    UNEXPECTED_EOF,
    INVALID_NUMBER,
    UNSUPPORTED_FUNCTION,
    INVALID_ARGUMENT_COUNT,
    EMPTY_ARGUMENT,
}

#[derive(Debug, Clone, Copy, PartialEq, Eq, Structural)]
pub struct ExpressionError {
    pub reason: ExpressionErrorReason,
    pub line: usize,
    pub span: LexerSpan,
}

#[allow(non_camel_case_types)]
#[derive(Debug, Clone, PartialEq, Eq)]
pub enum ValueExpressionError {
    VARIABLE(Vec<VariableResolutionError>),
    EXPRESSION(ExpressionError),
}

#[allow(non_camel_case_types)]
#[derive(Debug, Clone, Copy, PartialEq, Eq, Structural)]
pub enum SemanticErrorReason {
    INCOMPATIBLE_ADDITION,
    INVALID_MULTIPLICATION,
    INVALID_DIVISION,
}

#[derive(Debug, Clone, Copy, PartialEq, Eq, Structural)]
pub struct SemanticError {
    pub reason: SemanticErrorReason,
}

/// The outcome of folding an expression: a value, the expression kept for later when it needs
/// context that is not there, or an error.
#[derive(Debug, Clone, PartialEq)]
pub enum EvaluationResult<T> {
    Resolved(T),
    Deferred(Expr),
    Invalid(EvaluationError),
}

#[allow(non_camel_case_types)]
#[derive(Debug, Clone, Copy, PartialEq, Eq, Structural)]
pub enum EvaluationErrorReason {
    DIVISION_BY_ZERO,
    INVALID_OPERATION,
    NON_FINITE_RESULT,
}

#[derive(Debug, Clone, Copy, PartialEq, Eq, Structural)]
pub struct EvaluationError {
    pub reason: EvaluationErrorReason,
}

#[allow(non_camel_case_types)]
#[derive(Debug, Clone, Copy, PartialEq, Eq, Structural)]
pub enum ValueParseErrorReason {
    INVALID_NUMBER,
    INVALID_COLOR,
    INVALID_LIST,
}

#[derive(Debug, Clone, Copy, PartialEq, Eq, Structural)]
pub struct ValueParseError {
    pub reason: ValueParseErrorReason,
}

#[derive(Debug, Clone, Copy, PartialEq, Eq, Structural)]
pub enum PropertyGrammar {
    Color,
    LengthPercentageOrAuto,
    LengthPercentage,
    Margin,
    Padding,
    FontSize,
    Opacity,
    Display,
}

#[derive(Debug, Clone, PartialEq, Eq)]
pub struct PropertyGrammarRegistry {
    entries: Vec<(&'static str, PropertyGrammar)>,
}

#[allow(non_camel_case_types)]
#[derive(Debug, Clone, Copy, PartialEq, Eq, Structural)]
pub enum PropertyErrorReason {
    INVALID_VALUE,
    INVALID_VALUE_SYNTAX,
}

#[derive(Debug, Clone, Copy, PartialEq, Eq, Structural)]
pub struct PropertyError {
    pub reason: PropertyErrorReason,
    pub property: TokenData,
}

#[derive(Debug, Clone, PartialEq)]
pub struct AnalyzedDeclaration {
    pub property: TokenData,
    pub value: Value,
    pub important: bool,
}

// ---------------------------------------------------------------------------------------------
// Values as mathematical values.
// ---------------------------------------------------------------------------------------------

pub struct LiteralView {
    pub value: Seq<char>,
    pub unit: Option<Seq<char>>,
    pub span: LexerSpan,
}

pub enum ValueView {
    Number(LiteralView),
    HexColor(u32, usize, LexerSpan),
    NamedColor(TokenData),
    ColorFunction(ValueTree),
    String(TokenData),
    Keyword(TokenData),
    Url(TokenData),
    Function(ValueTree),
    List(Seq<ValueView>, ListSeparator),
    Raw(Seq<ValueTree>),
}

pub enum ExprView {
    Literal(LiteralView),
    Add(Box<ExprView>, Box<ExprView>),
    Subtract(Box<ExprView>, Box<ExprView>),
    Multiply(Box<ExprView>, Box<ExprView>),
    Divide(Box<ExprView>, Box<ExprView>),
    Group(Box<ExprView>),
    Min(Seq<ExprView>),
    Max(Seq<ExprView>),
    Clamp(Box<ExprView>, Box<ExprView>, Box<ExprView>),
}

pub open spec fn opt_text(s: Option<String>) -> Option<Seq<char>> {
    match s {
        Some(s) => Some(s@),
        None => None,
    }
}

pub open spec fn literal_view(l: NumericLiteral) -> LiteralView {
    LiteralView { value: l.value@, unit: opt_text(l.unit), span: l.span }
}

pub open spec fn function_model(f: Function) -> ValueTree {
    cv_model(ComponentValue::FUNCTION(f))
}

pub open spec fn value_view(v: Value) -> ValueView
    decreases v, 1nat,
{
    match v {
        Value::Number(l) => ValueView::Number(literal_view(l)),
        Value::Color(Color::Hex { value, digits, span }) => ValueView::HexColor(value, digits, span),
        Value::Color(Color::Named(t)) => ValueView::NamedColor(t),
        Value::Color(Color::Function(f)) => ValueView::ColorFunction(function_model(f)),
        Value::String(t) => ValueView::String(t),
        Value::Keyword(t) => ValueView::Keyword(t),
        Value::Url(t) => ValueView::Url(t),
        Value::Function(f) => ValueView::Function(function_model(f)),
        Value::List { items, separator } => ValueView::List(values_view(items@), separator),
        Value::Raw(values) => ValueView::Raw(cvs_model(values@)),
    }
}

pub open spec fn values_view(s: Seq<Value>) -> Seq<ValueView>
    decreases s, 0nat,
{
    if s.len() == 0 {
        seq![]
    } else {
        values_view(s.drop_last()).push(value_view(s.last()))
    }
}

pub open spec fn expr_view(e: Expr) -> ExprView
    decreases e, 1nat,
{
    match e {
        Expr::Literal(l) => ExprView::Literal(literal_view(l)),
        Expr::Add(a, b) => ExprView::Add(Box::new(expr_view(*a)), Box::new(expr_view(*b))),
        Expr::Subtract(a, b) => ExprView::Subtract(Box::new(expr_view(*a)), Box::new(expr_view(*b))),
        Expr::Multiply(a, b) => ExprView::Multiply(Box::new(expr_view(*a)), Box::new(expr_view(*b))),
        Expr::Divide(a, b) => ExprView::Divide(Box::new(expr_view(*a)), Box::new(expr_view(*b))),
        Expr::Group(a) => ExprView::Group(Box::new(expr_view(*a))),
        Expr::Min(args) => ExprView::Min(exprs_view(args@)),
        Expr::Max(args) => ExprView::Max(exprs_view(args@)),
        Expr::Clamp { min, value, max } => ExprView::Clamp(
            Box::new(expr_view(*min)),
            Box::new(expr_view(*value)),
            Box::new(expr_view(*max)),
        ),
    }
}

pub open spec fn exprs_view(s: Seq<Expr>) -> Seq<ExprView>
    decreases s, 0nat,
{
    if s.len() == 0 {
        seq![]
    } else {
        exprs_view(s.drop_last()).push(expr_view(s.last()))
    }
}

fn copy_literal(l: &NumericLiteral) -> (r: NumericLiteral)
    ensures
        literal_view(r) == literal_view(*l),
{
    NumericLiteral {
        value: l.value.clone(),
        unit: match &l.unit {
            Some(u) => Some(u.clone()),
            None => None,
        },
        span: l.span,
    }
}

fn copy_function(f: &Function) -> (r: Function)
    ensures
        function_model(r) == function_model(*f),
{
    Function { name: f.name, values: crate::parser::copy_component_values(&f.values), closing: f.closing }
}

/// A copy of a value.
pub fn copy_value(v: &Value) -> (r: Value)
    ensures
        value_view(r) == value_view(*v),
    decreases v, 1nat,
{
    match v {
        Value::Number(l) => Value::Number(copy_literal(l)),
        Value::Color(Color::Hex { value, digits, span }) => Value::Color(
            Color::Hex { value: *value, digits: *digits, span: *span },
        ),
        Value::Color(Color::Named(t)) => Value::Color(Color::Named(*t)),
        Value::Color(Color::Function(f)) => Value::Color(Color::Function(copy_function(f))),
        Value::String(t) => Value::String(*t),
        Value::Keyword(t) => Value::Keyword(*t),
        Value::Url(t) => Value::Url(*t),
        Value::Function(f) => Value::Function(copy_function(f)),
        Value::List { items, separator } => Value::List {
            items: copy_values(items),
            separator: *separator,
        },
        Value::Raw(values) => Value::Raw(crate::parser::copy_component_values(values)),
    }
}

/// A copy of a list of values.
pub fn copy_values(values: &Vec<Value>) -> (r: Vec<Value>)
    ensures
        values_view(r@) == values_view(values@),
    decreases values, 0nat,
{
    let mut r: Vec<Value> = Vec::new();
    let mut i: usize = 0;
    while i < values.len()
        invariant
            i <= values.len(),
            values_view(r@) == values_view(values@.take(i as int)),
        decreases values.len() - i,
    {
        assert(decreases_to!(values => values@[i as int]));
        let c = copy_value(&values[i]);
        let ghost before = r@;
        r.push(c);
        proof {
            assert(r@.drop_last() =~= before);
            assert(values@.take(i + 1).drop_last() =~= values@.take(i as int));
        }
        i = i + 1;
    }
    assert(values@.take(i as int) =~= values@);
    r
}

/// A copy of an expression.
pub fn copy_expr(e: &Expr) -> (r: Expr)
    ensures
        expr_view(r) == expr_view(*e),
    decreases e, 1nat,
{
    match e {
        Expr::Literal(l) => Expr::Literal(copy_literal(l)),
        Expr::Add(a, b) => Expr::Add(Box::new(copy_expr(a)), Box::new(copy_expr(b))),
        Expr::Subtract(a, b) => Expr::Subtract(Box::new(copy_expr(a)), Box::new(copy_expr(b))),
        Expr::Multiply(a, b) => Expr::Multiply(Box::new(copy_expr(a)), Box::new(copy_expr(b))),
        Expr::Divide(a, b) => Expr::Divide(Box::new(copy_expr(a)), Box::new(copy_expr(b))),
        Expr::Group(a) => Expr::Group(Box::new(copy_expr(a))),
        Expr::Min(args) => Expr::Min(copy_exprs(args)),
        Expr::Max(args) => Expr::Max(copy_exprs(args)),
        Expr::Clamp { min, value, max } => Expr::Clamp {
            min: Box::new(copy_expr(min)),
            value: Box::new(copy_expr(value)),
            max: Box::new(copy_expr(max)),
        },
    }
}

/// A copy of a list of expressions.
pub fn copy_exprs(exprs: &Vec<Expr>) -> (r: Vec<Expr>)
    ensures
        exprs_view(r@) == exprs_view(exprs@),
    decreases exprs, 0nat,
{
    let mut r: Vec<Expr> = Vec::new();
    let mut i: usize = 0;
    while i < exprs.len()
        invariant
            i <= exprs.len(),
            exprs_view(r@) == exprs_view(exprs@.take(i as int)),
        decreases exprs.len() - i,
    {
        assert(decreases_to!(exprs => exprs@[i as int]));
        let c = copy_expr(&exprs[i]);
        let ghost before = r@;
        r.push(c);
        proof {
            assert(r@.drop_last() =~= before);
            assert(exprs@.take(i + 1).drop_last() =~= exprs@.take(i as int));
        }
        i = i + 1;
    }
    assert(exprs@.take(i as int) =~= exprs@);
    r
}

impl Clone for Value {
    fn clone(&self) -> (r: Self)
        ensures
            value_view(r) == value_view(*self),
    {
        copy_value(self)
    }
}

impl Clone for Expr {
    fn clone(&self) -> (r: Self)
        ensures
            expr_view(r) == expr_view(*self),
    {
        copy_expr(self)
    }
}

// ---------------------------------------------------------------------------------------------
// Token text.
// ---------------------------------------------------------------------------------------------

/// The source text of a token: from the start of its span through its last code point, but
/// without a `(` there, so that a function gives its name.
pub open spec fn value_text_of(src: Seq<char>, t: TokenData) -> Option<Seq<char>> {
    match char_at_byte(src, t.span.0 as int) {
        None => None,
        Some(i) => match char_at_byte(src, t.span.1 as int) {
            None => None,
            Some(k) => {
                if t.kind == TokenKind::FUNCTION || (k < src.len() && src[k] == '(') {
                    if i <= k {
                        Some(src.subrange(i, k))
                    } else {
                        None
                    }
                } else if k >= src.len() {
                    None
                } else if i <= k + 1 {
                    Some(src.subrange(i, k + 1))
                } else {
                    None
                }
            },
        },
    }
}

/// Where the text of a token lies among the code points of the source.
fn text_range(chars: &Vec<char>, token: &TokenData) -> (r: Option<(usize, usize)>)
    ensures
        match r {
            Some((i, j)) => i <= j <= chars@.len() && value_text_of(chars@, *token) == Some(
                chars@.subrange(i as int, j as int),
            ),
            None => value_text_of(chars@, *token) is None,
        },
{
    let LexerSpan(start, cursor) = token.span;
    let i = match char_index_at_byte(chars, start) {
        Some(i) => i,
        None => return None,
    };
    let k = match char_index_at_byte(chars, cursor) {
        Some(k) => k,
        None => return None,
    };
    let j = if token.kind == TokenKind::FUNCTION || (k < chars.len() && chars[k] == '(') {
        k
    } else {
        if k >= chars.len() {
            return None;
        }
        k + 1
    };
    if i > j {
        return None;
    }
    Some((i, j))
}

// ---------------------------------------------------------------------------------------------
// Words.
// ---------------------------------------------------------------------------------------------

/// `c` is `d` up to ASCII case, `d` being in lower case.
pub open spec fn lower_eq(c: char, d: char) -> bool {
    c == d || ('A' <= c && c <= 'Z' && (c as u32) + 32 == (d as u32))
}

/// `t` is the word `w` up to ASCII case, `w` being in lower case.
pub open spec fn matches_lower(t: Seq<char>, w: Seq<char>) -> bool {
    t.len() == w.len() && forall|k: int| 0 <= k < t.len() ==> lower_eq(#[trigger] t[k], w[k])
}

fn text_matches(chars: &Vec<char>, i: usize, j: usize, word: &str) -> (r: bool)
    requires
        i <= j <= chars@.len(),
    ensures
        r == matches_lower(chars@.subrange(i as int, j as int), word@),
{
    let w = source_chars(word);
    let ghost t = chars@.subrange(i as int, j as int);
    if j - i != w.len() {
        return false;
    }
    let mut k: usize = 0;
    while k < w.len()
        invariant
            k <= w@.len(),
            w@ == word@,
            j - i == w@.len(),
            i <= j <= chars@.len(),
            t == chars@.subrange(i as int, j as int),
            forall|m: int| 0 <= m < k ==> lower_eq(#[trigger] t[m], w@[m]),
        decreases w@.len() - k,
    {
        let c = chars[i + k];
        let d = w[k];
        if !(c == d || ('A' <= c && c <= 'Z' && (c as u32) + 32 == (d as u32))) {
            assert(t[k as int] == c);
            return false;
        }
        assert(t[k as int] == c);
        k = k + 1;
    }
    true
}

/// A named color: one of the CSS color keywords, `transparent` or `currentcolor`.
pub open spec fn is_named_color(t: Seq<char>) -> bool {
    ||| matches_lower(t, "aliceblue"@)
    ||| matches_lower(t, "antiquewhite"@)
    ||| matches_lower(t, "aqua"@)
    ||| matches_lower(t, "aquamarine"@)
    ||| matches_lower(t, "azure"@)
    ||| matches_lower(t, "beige"@)
    ||| matches_lower(t, "bisque"@)
    ||| matches_lower(t, "black"@)
    ||| matches_lower(t, "blanchedalmond"@)
    ||| matches_lower(t, "blue"@)
    ||| matches_lower(t, "blueviolet"@)
    ||| matches_lower(t, "brown"@)
    ||| matches_lower(t, "burlywood"@)
    ||| matches_lower(t, "cadetblue"@)
    ||| matches_lower(t, "chartreuse"@)
    ||| matches_lower(t, "chocolate"@)
    ||| matches_lower(t, "coral"@)
    ||| matches_lower(t, "cornflowerblue"@)
    ||| matches_lower(t, "cornsilk"@)
    ||| matches_lower(t, "crimson"@)
    ||| matches_lower(t, "cyan"@)
    ||| matches_lower(t, "darkblue"@)
    ||| matches_lower(t, "darkcyan"@)
    ||| matches_lower(t, "darkgoldenrod"@)
    ||| matches_lower(t, "darkgray"@)
    ||| matches_lower(t, "darkgreen"@)
    ||| matches_lower(t, "darkgrey"@)
    ||| matches_lower(t, "darkkhaki"@)
    ||| matches_lower(t, "darkmagenta"@)
    ||| matches_lower(t, "darkolivegreen"@)
    ||| matches_lower(t, "darkorange"@)
    ||| matches_lower(t, "darkorchid"@)
    ||| matches_lower(t, "darkred"@)
    ||| matches_lower(t, "darksalmon"@)
    ||| matches_lower(t, "darkseagreen"@)
    ||| matches_lower(t, "darkslateblue"@)
    ||| matches_lower(t, "darkslategray"@)
    ||| matches_lower(t, "darkslategrey"@)
    ||| matches_lower(t, "darkturquoise"@)
    ||| matches_lower(t, "darkviolet"@)
    ||| matches_lower(t, "deeppink"@)
    ||| matches_lower(t, "deepskyblue"@)
    ||| matches_lower(t, "dimgray"@)
    ||| matches_lower(t, "dimgrey"@)
    ||| matches_lower(t, "dodgerblue"@)
    ||| matches_lower(t, "firebrick"@)
    ||| matches_lower(t, "floralwhite"@)
    ||| matches_lower(t, "forestgreen"@)
    ||| matches_lower(t, "fuchsia"@)
    ||| matches_lower(t, "gainsboro"@)
    ||| matches_lower(t, "ghostwhite"@)
    ||| matches_lower(t, "gold"@)
    ||| matches_lower(t, "goldenrod"@)
    ||| matches_lower(t, "gray"@)
    ||| matches_lower(t, "green"@)
    ||| matches_lower(t, "greenyellow"@)
    ||| matches_lower(t, "grey"@)
    ||| matches_lower(t, "honeydew"@)
    ||| matches_lower(t, "hotpink"@)
    ||| matches_lower(t, "indianred"@)
    ||| matches_lower(t, "indigo"@)
    ||| matches_lower(t, "ivory"@)
    ||| matches_lower(t, "khaki"@)
    ||| matches_lower(t, "lavender"@)
    ||| matches_lower(t, "lavenderblush"@)
    ||| matches_lower(t, "lawngreen"@)
    ||| matches_lower(t, "lemonchiffon"@)
    ||| matches_lower(t, "lightblue"@)
    ||| matches_lower(t, "lightcoral"@)
    ||| matches_lower(t, "lightcyan"@)
    ||| matches_lower(t, "lightgoldenrodyellow"@)
    ||| matches_lower(t, "lightgray"@)
    ||| matches_lower(t, "lightgreen"@)
    ||| matches_lower(t, "lightgrey"@)
    ||| matches_lower(t, "lightpink"@)
    ||| matches_lower(t, "lightsalmon"@)
    ||| matches_lower(t, "lightseagreen"@)
    ||| matches_lower(t, "lightskyblue"@)
    ||| matches_lower(t, "lightslategray"@)
    ||| matches_lower(t, "lightslategrey"@)
    ||| matches_lower(t, "lightsteelblue"@)
    ||| matches_lower(t, "lightyellow"@)
    ||| matches_lower(t, "lime"@)
    ||| matches_lower(t, "limegreen"@)
    ||| matches_lower(t, "linen"@)
    ||| matches_lower(t, "magenta"@)
    ||| matches_lower(t, "maroon"@)
    ||| matches_lower(t, "mediumaquamarine"@)
    ||| matches_lower(t, "mediumblue"@)
    ||| matches_lower(t, "mediumorchid"@)
    ||| matches_lower(t, "mediumpurple"@)
    ||| matches_lower(t, "mediumseagreen"@)
    ||| matches_lower(t, "mediumslateblue"@)
    ||| matches_lower(t, "mediumspringgreen"@)
    ||| matches_lower(t, "mediumturquoise"@)
    ||| matches_lower(t, "mediumvioletred"@)
    ||| matches_lower(t, "midnightblue"@)
    ||| matches_lower(t, "mintcream"@)
    ||| matches_lower(t, "mistyrose"@)
    ||| matches_lower(t, "moccasin"@)
    ||| matches_lower(t, "navajowhite"@)
    ||| matches_lower(t, "navy"@)
    ||| matches_lower(t, "oldlace"@)
    ||| matches_lower(t, "olive"@)
    ||| matches_lower(t, "olivedrab"@)
    ||| matches_lower(t, "orange"@)
    ||| matches_lower(t, "orangered"@)
    ||| matches_lower(t, "orchid"@)
    ||| matches_lower(t, "palegoldenrod"@)
    ||| matches_lower(t, "palegreen"@)
    ||| matches_lower(t, "paleturquoise"@)
    ||| matches_lower(t, "palevioletred"@)
    ||| matches_lower(t, "papayawhip"@)
    ||| matches_lower(t, "peachpuff"@)
    ||| matches_lower(t, "peru"@)
    ||| matches_lower(t, "pink"@)
    ||| matches_lower(t, "plum"@)
    ||| matches_lower(t, "powderblue"@)
    ||| matches_lower(t, "purple"@)
    ||| matches_lower(t, "rebeccapurple"@)
    ||| matches_lower(t, "red"@)
    ||| matches_lower(t, "rosybrown"@)
    ||| matches_lower(t, "royalblue"@)
    ||| matches_lower(t, "saddlebrown"@)
    ||| matches_lower(t, "salmon"@)
    ||| matches_lower(t, "sandybrown"@)
    ||| matches_lower(t, "seagreen"@)
    ||| matches_lower(t, "seashell"@)
    ||| matches_lower(t, "sienna"@)
    ||| matches_lower(t, "silver"@)
    ||| matches_lower(t, "skyblue"@)
    ||| matches_lower(t, "slateblue"@)
    ||| matches_lower(t, "slategray"@)
    ||| matches_lower(t, "slategrey"@)
    ||| matches_lower(t, "snow"@)
    ||| matches_lower(t, "springgreen"@)
    ||| matches_lower(t, "steelblue"@)
    ||| matches_lower(t, "tan"@)
    ||| matches_lower(t, "teal"@)
    ||| matches_lower(t, "thistle"@)
    ||| matches_lower(t, "tomato"@)
    ||| matches_lower(t, "turquoise"@)
    ||| matches_lower(t, "violet"@)
    ||| matches_lower(t, "wheat"@)
    ||| matches_lower(t, "white"@)
    ||| matches_lower(t, "whitesmoke"@)
    ||| matches_lower(t, "yellow"@)
    ||| matches_lower(t, "yellowgreen"@)
    ||| matches_lower(t, "transparent"@)
    ||| matches_lower(t, "currentcolor"@)
}

/// The name of a color function.
pub open spec fn is_color_function(t: Seq<char>) -> bool {
    ||| matches_lower(t, "rgb"@)
    ||| matches_lower(t, "rgba"@)
    ||| matches_lower(t, "hsl"@)
    ||| matches_lower(t, "hsla"@)
    ||| matches_lower(t, "hwb"@)
    ||| matches_lower(t, "lab"@)
    ||| matches_lower(t, "lch"@)
    ||| matches_lower(t, "oklab"@)
    ||| matches_lower(t, "oklch"@)
    ||| matches_lower(t, "color"@)
}

/// The name of a math function.
pub open spec fn is_math_function(t: Seq<char>) -> bool {
    ||| matches_lower(t, "calc"@)
    ||| matches_lower(t, "min"@)
    ||| matches_lower(t, "max"@)
    ||| matches_lower(t, "clamp"@)
}

/// A keyword that `display` accepts.
pub open spec fn is_display_keyword(t: Seq<char>) -> bool {
    ||| matches_lower(t, "block"@)
    ||| matches_lower(t, "inline"@)
    ||| matches_lower(t, "inline-block"@)
    ||| matches_lower(t, "flex"@)
    ||| matches_lower(t, "inline-flex"@)
    ||| matches_lower(t, "grid"@)
    ||| matches_lower(t, "inline-grid"@)
    ||| matches_lower(t, "flow-root"@)
    ||| matches_lower(t, "none"@)
    ||| matches_lower(t, "contents"@)
}

/// A keyword that `font-size` accepts.
pub open spec fn is_font_size_keyword(t: Seq<char>) -> bool {
    ||| matches_lower(t, "xx-small"@)
    ||| matches_lower(t, "x-small"@)
    ||| matches_lower(t, "small"@)
    ||| matches_lower(t, "medium"@)
    ||| matches_lower(t, "large"@)
    ||| matches_lower(t, "x-large"@)
    ||| matches_lower(t, "xx-large"@)
    ||| matches_lower(t, "xxx-large"@)
    ||| matches_lower(t, "smaller"@)
    ||| matches_lower(t, "larger"@)
}

/// A unit whose value depends on the context: percentages and font- and viewport-relative lengths.
pub open spec fn is_context_unit(t: Seq<char>) -> bool {
    ||| matches_lower(t, "%"@)
    ||| matches_lower(t, "cap"@)
    ||| matches_lower(t, "ch"@)
    ||| matches_lower(t, "em"@)
    ||| matches_lower(t, "ex"@)
    ||| matches_lower(t, "ic"@)
    ||| matches_lower(t, "lh"@)
    ||| matches_lower(t, "rem"@)
    ||| matches_lower(t, "rlh"@)
    ||| matches_lower(t, "vh"@)
    ||| matches_lower(t, "vmax"@)
    ||| matches_lower(t, "vmin"@)
    ||| matches_lower(t, "vw"@)
    ||| matches_lower(t, "dvh"@)
    ||| matches_lower(t, "dvw"@)
    ||| matches_lower(t, "lvh"@)
    ||| matches_lower(t, "lvw"@)
    ||| matches_lower(t, "svh"@)
    ||| matches_lower(t, "svw"@)
}

/// A length unit.
pub open spec fn is_length_unit(t: Seq<char>) -> bool {
    ||| matches_lower(t, "cap"@)
    ||| matches_lower(t, "ch"@)
    ||| matches_lower(t, "cm"@)
    ||| matches_lower(t, "em"@)
    ||| matches_lower(t, "ex"@)
    ||| matches_lower(t, "ic"@)
    ||| matches_lower(t, "in"@)
    ||| matches_lower(t, "lh"@)
    ||| matches_lower(t, "mm"@)
    ||| matches_lower(t, "pc"@)
    ||| matches_lower(t, "pt"@)
    ||| matches_lower(t, "px"@)
    ||| matches_lower(t, "q"@)
    ||| matches_lower(t, "rem"@)
    ||| matches_lower(t, "rlh"@)
    ||| matches_lower(t, "vh"@)
    ||| matches_lower(t, "vmax"@)
    ||| matches_lower(t, "vmin"@)
    ||| matches_lower(t, "vw"@)
    ||| matches_lower(t, "dvh"@)
    ||| matches_lower(t, "dvw"@)
    ||| matches_lower(t, "lvh"@)
    ||| matches_lower(t, "lvw"@)
    ||| matches_lower(t, "svh"@)
    ||| matches_lower(t, "svw"@)
}

/// An angle unit.
pub open spec fn is_angle_unit(t: Seq<char>) -> bool {
    ||| matches_lower(t, "deg"@)
    ||| matches_lower(t, "grad"@)
    ||| matches_lower(t, "rad"@)
    ||| matches_lower(t, "turn"@)
}

/// A time unit.
pub open spec fn is_time_unit(t: Seq<char>) -> bool {
    ||| matches_lower(t, "ms"@)
    ||| matches_lower(t, "s"@)
}

/// A frequency unit.
pub open spec fn is_frequency_unit(t: Seq<char>) -> bool {
    ||| matches_lower(t, "hz"@)
    ||| matches_lower(t, "khz"@)
}

/// A resolution unit.
pub open spec fn is_resolution_unit(t: Seq<char>) -> bool {
    ||| matches_lower(t, "dpi"@)
    ||| matches_lower(t, "dpcm"@)
    ||| matches_lower(t, "dppx"@)
    ||| matches_lower(t, "x"@)
}


fn named_color_text(chars: &Vec<char>, i: usize, j: usize) -> (r: bool)
    requires
        i <= j <= chars@.len(),
    ensures
        r == is_named_color(chars@.subrange(i as int, j as int)),
{
    text_matches(chars, i, j, "aliceblue")
        || text_matches(chars, i, j, "antiquewhite")
        || text_matches(chars, i, j, "aqua")
        || text_matches(chars, i, j, "aquamarine")
        || text_matches(chars, i, j, "azure")
        || text_matches(chars, i, j, "beige")
        || text_matches(chars, i, j, "bisque")
        || text_matches(chars, i, j, "black")
        || text_matches(chars, i, j, "blanchedalmond")
        || text_matches(chars, i, j, "blue")
        || text_matches(chars, i, j, "blueviolet")
        || text_matches(chars, i, j, "brown")
        || text_matches(chars, i, j, "burlywood")
        || text_matches(chars, i, j, "cadetblue")
        || text_matches(chars, i, j, "chartreuse")
        || text_matches(chars, i, j, "chocolate")
        || text_matches(chars, i, j, "coral")
        || text_matches(chars, i, j, "cornflowerblue")
        || text_matches(chars, i, j, "cornsilk")
        || text_matches(chars, i, j, "crimson")
        || text_matches(chars, i, j, "cyan")
        || text_matches(chars, i, j, "darkblue")
        || text_matches(chars, i, j, "darkcyan")
        || text_matches(chars, i, j, "darkgoldenrod")
        || text_matches(chars, i, j, "darkgray")
        || text_matches(chars, i, j, "darkgreen")
        || text_matches(chars, i, j, "darkgrey")
        || text_matches(chars, i, j, "darkkhaki")
        || text_matches(chars, i, j, "darkmagenta")
        || text_matches(chars, i, j, "darkolivegreen")
        || text_matches(chars, i, j, "darkorange")
        || text_matches(chars, i, j, "darkorchid")
        || text_matches(chars, i, j, "darkred")
        || text_matches(chars, i, j, "darksalmon")
        || text_matches(chars, i, j, "darkseagreen")
        || text_matches(chars, i, j, "darkslateblue")
        || text_matches(chars, i, j, "darkslategray")
        || text_matches(chars, i, j, "darkslategrey")
        || text_matches(chars, i, j, "darkturquoise")
        || text_matches(chars, i, j, "darkviolet")
        || text_matches(chars, i, j, "deeppink")
        || text_matches(chars, i, j, "deepskyblue")
        || text_matches(chars, i, j, "dimgray")
        || text_matches(chars, i, j, "dimgrey")
        || text_matches(chars, i, j, "dodgerblue")
        || text_matches(chars, i, j, "firebrick")
        || text_matches(chars, i, j, "floralwhite")
        || text_matches(chars, i, j, "forestgreen")
        || text_matches(chars, i, j, "fuchsia")
        || text_matches(chars, i, j, "gainsboro")
        || text_matches(chars, i, j, "ghostwhite")
        || text_matches(chars, i, j, "gold")
        || text_matches(chars, i, j, "goldenrod")
        || text_matches(chars, i, j, "gray")
        || text_matches(chars, i, j, "green")
        || text_matches(chars, i, j, "greenyellow")
        || text_matches(chars, i, j, "grey")
        || text_matches(chars, i, j, "honeydew")
        || text_matches(chars, i, j, "hotpink")
        || text_matches(chars, i, j, "indianred")
        || text_matches(chars, i, j, "indigo")
        || text_matches(chars, i, j, "ivory")
        || text_matches(chars, i, j, "khaki")
        || text_matches(chars, i, j, "lavender")
        || text_matches(chars, i, j, "lavenderblush")
        || text_matches(chars, i, j, "lawngreen")
        || text_matches(chars, i, j, "lemonchiffon")
        || text_matches(chars, i, j, "lightblue")
        || text_matches(chars, i, j, "lightcoral")
        || text_matches(chars, i, j, "lightcyan")
        || text_matches(chars, i, j, "lightgoldenrodyellow")
        || text_matches(chars, i, j, "lightgray")
        || text_matches(chars, i, j, "lightgreen")
        || text_matches(chars, i, j, "lightgrey")
        || text_matches(chars, i, j, "lightpink")
        || text_matches(chars, i, j, "lightsalmon")
        || text_matches(chars, i, j, "lightseagreen")
        || text_matches(chars, i, j, "lightskyblue")
        || text_matches(chars, i, j, "lightslategray")
        || text_matches(chars, i, j, "lightslategrey")
        || text_matches(chars, i, j, "lightsteelblue")
        || text_matches(chars, i, j, "lightyellow")
        || text_matches(chars, i, j, "lime")
        || text_matches(chars, i, j, "limegreen")
        || text_matches(chars, i, j, "linen")
        || text_matches(chars, i, j, "magenta")
        || text_matches(chars, i, j, "maroon")
        || text_matches(chars, i, j, "mediumaquamarine")
        || text_matches(chars, i, j, "mediumblue")
        || text_matches(chars, i, j, "mediumorchid")
        || text_matches(chars, i, j, "mediumpurple")
        || text_matches(chars, i, j, "mediumseagreen")
        || text_matches(chars, i, j, "mediumslateblue")
        || text_matches(chars, i, j, "mediumspringgreen")
        || text_matches(chars, i, j, "mediumturquoise")
        || text_matches(chars, i, j, "mediumvioletred")
        || text_matches(chars, i, j, "midnightblue")
        || text_matches(chars, i, j, "mintcream")
        || text_matches(chars, i, j, "mistyrose")
        || text_matches(chars, i, j, "moccasin")
        || text_matches(chars, i, j, "navajowhite")
        || text_matches(chars, i, j, "navy")
        || text_matches(chars, i, j, "oldlace")
        || text_matches(chars, i, j, "olive")
        || text_matches(chars, i, j, "olivedrab")
        || text_matches(chars, i, j, "orange")
        || text_matches(chars, i, j, "orangered")
        || text_matches(chars, i, j, "orchid")
        || text_matches(chars, i, j, "palegoldenrod")
        || text_matches(chars, i, j, "palegreen")
        || text_matches(chars, i, j, "paleturquoise")
        || text_matches(chars, i, j, "palevioletred")
        || text_matches(chars, i, j, "papayawhip")
        || text_matches(chars, i, j, "peachpuff")
        || text_matches(chars, i, j, "peru")
        || text_matches(chars, i, j, "pink")
        || text_matches(chars, i, j, "plum")
        || text_matches(chars, i, j, "powderblue")
        || text_matches(chars, i, j, "purple")
        || text_matches(chars, i, j, "rebeccapurple")
        || text_matches(chars, i, j, "red")
        || text_matches(chars, i, j, "rosybrown")
        || text_matches(chars, i, j, "royalblue")
        || text_matches(chars, i, j, "saddlebrown")
        || text_matches(chars, i, j, "salmon")
        || text_matches(chars, i, j, "sandybrown")
        || text_matches(chars, i, j, "seagreen")
        || text_matches(chars, i, j, "seashell")
        || text_matches(chars, i, j, "sienna")
        || text_matches(chars, i, j, "silver")
        || text_matches(chars, i, j, "skyblue")
        || text_matches(chars, i, j, "slateblue")
        || text_matches(chars, i, j, "slategray")
        || text_matches(chars, i, j, "slategrey")
        || text_matches(chars, i, j, "snow")
        || text_matches(chars, i, j, "springgreen")
        || text_matches(chars, i, j, "steelblue")
        || text_matches(chars, i, j, "tan")
        || text_matches(chars, i, j, "teal")
        || text_matches(chars, i, j, "thistle")
        || text_matches(chars, i, j, "tomato")
        || text_matches(chars, i, j, "turquoise")
        || text_matches(chars, i, j, "violet")
        || text_matches(chars, i, j, "wheat")
        || text_matches(chars, i, j, "white")
        || text_matches(chars, i, j, "whitesmoke")
        || text_matches(chars, i, j, "yellow")
        || text_matches(chars, i, j, "yellowgreen")
        || text_matches(chars, i, j, "transparent")
        || text_matches(chars, i, j, "currentcolor")
}

fn color_function_text(chars: &Vec<char>, i: usize, j: usize) -> (r: bool)
    requires
        i <= j <= chars@.len(),
    ensures
        r == is_color_function(chars@.subrange(i as int, j as int)),
{
    text_matches(chars, i, j, "rgb")
        || text_matches(chars, i, j, "rgba")
        || text_matches(chars, i, j, "hsl")
        || text_matches(chars, i, j, "hsla")
        || text_matches(chars, i, j, "hwb")
        || text_matches(chars, i, j, "lab")
        || text_matches(chars, i, j, "lch")
        || text_matches(chars, i, j, "oklab")
        || text_matches(chars, i, j, "oklch")
        || text_matches(chars, i, j, "color")
}

fn math_function_text(chars: &Vec<char>, i: usize, j: usize) -> (r: bool)
    requires
        i <= j <= chars@.len(),
    ensures
        r == is_math_function(chars@.subrange(i as int, j as int)),
{
    text_matches(chars, i, j, "calc")
        || text_matches(chars, i, j, "min")
        || text_matches(chars, i, j, "max")
        || text_matches(chars, i, j, "clamp")
}

fn display_keyword_text(chars: &Vec<char>, i: usize, j: usize) -> (r: bool)
    requires
        i <= j <= chars@.len(),
    ensures
        r == is_display_keyword(chars@.subrange(i as int, j as int)),
{
    text_matches(chars, i, j, "block")
        || text_matches(chars, i, j, "inline")
        || text_matches(chars, i, j, "inline-block")
        || text_matches(chars, i, j, "flex")
        || text_matches(chars, i, j, "inline-flex")
        || text_matches(chars, i, j, "grid")
        || text_matches(chars, i, j, "inline-grid")
        || text_matches(chars, i, j, "flow-root")
        || text_matches(chars, i, j, "none")
        || text_matches(chars, i, j, "contents")
}

fn font_size_keyword_text(chars: &Vec<char>, i: usize, j: usize) -> (r: bool)
    requires
        i <= j <= chars@.len(),
    ensures
        r == is_font_size_keyword(chars@.subrange(i as int, j as int)),
{
    text_matches(chars, i, j, "xx-small")
        || text_matches(chars, i, j, "x-small")
        || text_matches(chars, i, j, "small")
        || text_matches(chars, i, j, "medium")
        || text_matches(chars, i, j, "large")
        || text_matches(chars, i, j, "x-large")
        || text_matches(chars, i, j, "xx-large")
        || text_matches(chars, i, j, "xxx-large")
        || text_matches(chars, i, j, "smaller")
        || text_matches(chars, i, j, "larger")
}

fn context_unit_text(chars: &Vec<char>, i: usize, j: usize) -> (r: bool)
    requires
        i <= j <= chars@.len(),
    ensures
        r == is_context_unit(chars@.subrange(i as int, j as int)),
{
    text_matches(chars, i, j, "%")
        || text_matches(chars, i, j, "cap")
        || text_matches(chars, i, j, "ch")
        || text_matches(chars, i, j, "em")
        || text_matches(chars, i, j, "ex")
        || text_matches(chars, i, j, "ic")
        || text_matches(chars, i, j, "lh")
        || text_matches(chars, i, j, "rem")
        || text_matches(chars, i, j, "rlh")
        || text_matches(chars, i, j, "vh")
        || text_matches(chars, i, j, "vmax")
        || text_matches(chars, i, j, "vmin")
        || text_matches(chars, i, j, "vw")
        || text_matches(chars, i, j, "dvh")
        || text_matches(chars, i, j, "dvw")
        || text_matches(chars, i, j, "lvh")
        || text_matches(chars, i, j, "lvw")
        || text_matches(chars, i, j, "svh")
        || text_matches(chars, i, j, "svw")
}

fn length_unit_text(chars: &Vec<char>, i: usize, j: usize) -> (r: bool)
    requires
        i <= j <= chars@.len(),
    ensures
        r == is_length_unit(chars@.subrange(i as int, j as int)),
{
    text_matches(chars, i, j, "cap")
        || text_matches(chars, i, j, "ch")
        || text_matches(chars, i, j, "cm")
        || text_matches(chars, i, j, "em")
        || text_matches(chars, i, j, "ex")
        || text_matches(chars, i, j, "ic")
        || text_matches(chars, i, j, "in")
        || text_matches(chars, i, j, "lh")
        || text_matches(chars, i, j, "mm")
        || text_matches(chars, i, j, "pc")
        || text_matches(chars, i, j, "pt")
        || text_matches(chars, i, j, "px")
        || text_matches(chars, i, j, "q")
        || text_matches(chars, i, j, "rem")
        || text_matches(chars, i, j, "rlh")
        || text_matches(chars, i, j, "vh")
        || text_matches(chars, i, j, "vmax")
        || text_matches(chars, i, j, "vmin")
        || text_matches(chars, i, j, "vw")
        || text_matches(chars, i, j, "dvh")
        || text_matches(chars, i, j, "dvw")
        || text_matches(chars, i, j, "lvh")
        || text_matches(chars, i, j, "lvw")
        || text_matches(chars, i, j, "svh")
        || text_matches(chars, i, j, "svw")
}

fn angle_unit_text(chars: &Vec<char>, i: usize, j: usize) -> (r: bool)
    requires
        i <= j <= chars@.len(),
    ensures
        r == is_angle_unit(chars@.subrange(i as int, j as int)),
{
    text_matches(chars, i, j, "deg")
        || text_matches(chars, i, j, "grad")
        || text_matches(chars, i, j, "rad")
        || text_matches(chars, i, j, "turn")
}

fn time_unit_text(chars: &Vec<char>, i: usize, j: usize) -> (r: bool)
    requires
        i <= j <= chars@.len(),
    ensures
        r == is_time_unit(chars@.subrange(i as int, j as int)),
{
    text_matches(chars, i, j, "ms")
        || text_matches(chars, i, j, "s")
}

fn frequency_unit_text(chars: &Vec<char>, i: usize, j: usize) -> (r: bool)
    requires
        i <= j <= chars@.len(),
    ensures
        r == is_frequency_unit(chars@.subrange(i as int, j as int)),
{
    text_matches(chars, i, j, "hz")
        || text_matches(chars, i, j, "khz")
}

fn resolution_unit_text(chars: &Vec<char>, i: usize, j: usize) -> (r: bool)
    requires
        i <= j <= chars@.len(),
    ensures
        r == is_resolution_unit(chars@.subrange(i as int, j as int)),
{
    text_matches(chars, i, j, "dpi")
        || text_matches(chars, i, j, "dpcm")
        || text_matches(chars, i, j, "dppx")
        || text_matches(chars, i, j, "x")
}


// ---------------------------------------------------------------------------------------------
// Numbers.
// ---------------------------------------------------------------------------------------------

/// The first index at or after `i` that does not hold an ASCII digit.
pub open spec fn digits_end(t: Seq<char>, i: int) -> int
    decreases t.len() - i,
{
    if 0 <= i < t.len() && ascii_digit(t[i]) {
        digits_end(t, i + 1)
    } else {
        i
    }
}

pub open spec fn sign_at(t: Seq<char>, i: int) -> bool {
    0 <= i < t.len() && (t[i] == '+' || t[i] == '-')
}

/// Where the significand that starts at `i` ends: its digits, then `.` and the digits after
/// it where a `.` follows.
pub open spec fn significand_end(t: Seq<char>, i: int) -> int {
    let b = digits_end(t, i);
    if 0 <= b < t.len() && t[b] == '.' {
        digits_end(t, b + 1)
    } else {
        b
    }
}

/// Where the exponent that may start at `c` ends: `c` itself unless `e` or `E`, an optional
/// sign and at least one digit follow.
pub open spec fn exponent_end(t: Seq<char>, c: int) -> int {
    if 0 <= c < t.len() && (t[c] == 'e' || t[c] == 'E') {
        let e = if sign_at(t, c + 1) {
            c + 2
        } else {
            c + 1
        };
        if digits_end(t, e) == e {
            c
        } else {
            digits_end(t, e)
        }
    } else {
        c
    }
}

/// The length of the numeric prefix of a dimension's text: an optional sign, digits, a `.`
/// and digits, and an exponent.
pub open spec fn number_prefix_len(t: Seq<char>) -> int {
    let a = if sign_at(t, 0) {
        1int
    } else {
        0int
    };
    exponent_end(t, significand_end(t, a))
}

/// The text of a number in the syntax that Rust's `f64::from_str` accepts: a sign, then
/// `inf`, `infinity` or `nan` in any case, or digits with at most one `.` and at least one
/// digit, and an exponent of `e` or `E`, a sign and at least one digit.
pub open spec fn float_syntax(t: Seq<char>) -> bool {
    let a = if sign_at(t, 0) {
        1int
    } else {
        0int
    };
    let r = t.skip(a);
    ||| matches_lower(r, "inf"@)
    ||| matches_lower(r, "infinity"@)
    ||| matches_lower(r, "nan"@)
    ||| decimal_syntax(r)
}

pub open spec fn decimal_syntax(r: Seq<char>) -> bool {
    let b = digits_end(r, 0);
    let c = significand_end(r, 0);
    &&& (b > 0 || c > b + 1)
    &&& exponent_end(r, c) == r.len()
    &&& (c == r.len() || exponent_end(r, c) > c)
}

pub open spec fn sign_len_spec(t: Seq<char>) -> int {
    if sign_at(t, 0) {
        1int
    } else {
        0int
    }
}

/// A number whose value is zero: every digit of its significand is `0`.
pub open spec fn zero_text(t: Seq<char>) -> bool {
    let r = t.skip(sign_len_spec(t));
    &&& decimal_syntax(r)
    &&& forall|k: int| 0 <= k < significand_end(r, 0) ==> #[trigger] r[k] == '0' || r[k] == '.'
}

fn digits_end_exec(t: &Vec<char>, i: usize) -> (r: usize)
    requires
        i <= t@.len(),
    ensures
        r == digits_end(t@, i as int),
        i <= r <= t@.len(),
{
    let mut k = i;
    while k < t.len() && is_ascii_digit(t[k])
        invariant
            i <= k <= t@.len(),
            digits_end(t@, k as int) == digits_end(t@, i as int),
        decreases t@.len() - k,
    {
        k = k + 1;
    }
    k
}

fn significand_end_exec(t: &Vec<char>, i: usize) -> (r: usize)
    requires
        i <= t@.len(),
    ensures
        r == significand_end(t@, i as int),
        i <= r <= t@.len(),
{
    let b = digits_end_exec(t, i);
    if b < t.len() && t[b] == '.' {
        digits_end_exec(t, b + 1)
    } else {
        b
    }
}

fn exponent_end_exec(t: &Vec<char>, c: usize) -> (r: usize)
    requires
        c <= t@.len(),
    ensures
        r == exponent_end(t@, c as int),
        c <= r <= t@.len(),
{
    if c < t.len() && (t[c] == 'e' || t[c] == 'E') {
        let e = if c + 1 < t.len() && (t[c + 1] == '+' || t[c + 1] == '-') {
            c + 2
        } else {
            c + 1
        };
        let f = digits_end_exec(t, e);
        if f == e {
            c
        } else {
            f
        }
    } else {
        c
    }
}

fn sign_len(t: &Vec<char>) -> (r: usize)
    ensures
        r == (if sign_at(t@, 0) {
            1int
        } else {
            0int
        }),
{
    if t.len() > 0 && (t[0] == '+' || t[0] == '-') {
        1
    } else {
        0
    }
}

/// The length of the numeric prefix of a dimension's text, where it is not empty.
fn number_end(text: &Vec<char>) -> (r: Option<usize>)
    ensures
        match r {
            Some(k) => k == number_prefix_len(text@) && k > 0,
            None => number_prefix_len(text@) == 0,
        },
        0 <= number_prefix_len(text@) <= text@.len(),
{
    let a = sign_len(text);
    let c = significand_end_exec(text, a);
    let index = exponent_end_exec(text, c);
    if index > 0 {
        Some(index)
    } else {
        None
    }
}

fn skip_chars(t: &Vec<char>, a: usize) -> (r: Vec<char>)
    requires
        a <= t@.len(),
    ensures
        r@ == t@.skip(a as int),
{
    let mut r: Vec<char> = Vec::new();
    let mut k = a;
    while k < t.len()
        invariant
            a <= k <= t@.len(),
            r@ == t@.subrange(a as int, k as int),
        decreases t@.len() - k,
    {
        r.push(t[k]);
        assert(t@.subrange(a as int, k + 1) =~= t@.subrange(a as int, k as int).push(t@[k as int]));
        k = k + 1;
    }
    assert(t@.subrange(a as int, k as int) =~= t@.skip(a as int));
    r
}

/// The code points `i..j`.
fn chars_of(chars: &Vec<char>, i: usize, j: usize) -> (r: Vec<char>)
    requires
        i <= j <= chars@.len(),
    ensures
        r@ == chars@.subrange(i as int, j as int),
{
    let mut r: Vec<char> = Vec::new();
    let mut k = i;
    while k < j
        invariant
            i <= k <= j <= chars@.len(),
            r@ == chars@.subrange(i as int, k as int),
        decreases j - k,
    {
        r.push(chars[k]);
        assert(chars@.subrange(i as int, k + 1) =~= chars@.subrange(i as int, k as int).push(chars@[k as int]));
        k = k + 1;
    }
    r
}

fn all_text_matches(t: &Vec<char>, word: &str) -> (r: bool)
    ensures
        r == matches_lower(t@, word@),
{
    proof {
        assert(t@.subrange(0, t@.len() as int) =~= t@);
    }
    text_matches(t, 0, t.len(), word)
}

fn decimal_syntax_exec(r: &Vec<char>) -> (ok: bool)
    ensures
        ok == decimal_syntax(r@),
{
    let b = digits_end_exec(r, 0);
    let c = significand_end_exec(r, 0);
    let e = exponent_end_exec(r, c);
    (b > 0 || c > b + 1) && e == r.len() && (c == r.len() || e > c)
}

/// Whether a number's text is in the syntax of Rust's floating-point numbers.
fn is_float_text(t: &Vec<char>) -> (ok: bool)
    ensures
        ok == float_syntax(t@),
{
    let a = sign_len(t);
    let r = skip_chars(t, a);
    all_text_matches(&r, "inf") || all_text_matches(&r, "infinity") || all_text_matches(&r, "nan")
        || decimal_syntax_exec(&r)
}

/// Whether a number's text has the value zero.
pub fn is_zero_text(t: &Vec<char>) -> (ok: bool)
    ensures
        ok == zero_text(t@),
{
    let a = sign_len(t);
    let r = skip_chars(t, a);
    if !decimal_syntax_exec(&r) {
        return false;
    }
    let c = significand_end_exec(&r, 0);
    let mut k: usize = 0;
    while k < c
        invariant
            k <= c <= r@.len(),
            r@ == t@.skip(sign_len_spec(t@)),
            c == significand_end(r@, 0),
            forall|m: int| 0 <= m < k ==> #[trigger] r@[m] == '0' || r@[m] == '.',
        decreases c - k,
    {
        if !(r[k] == '0' || r[k] == '.') {
            assert(!(r@[k as int] == '0' || r@[k as int] == '.'));
            return false;
        }
        k = k + 1;
    }
    true
}


// ---------------------------------------------------------------------------------------------
// Colors.
// ---------------------------------------------------------------------------------------------

pub open spec fn hex_digit_value(c: char) -> nat {
    if '0' <= c && c <= '9' {
        (c as nat - 48) as nat
    } else if 'a' <= c && c <= 'f' {
        (c as nat - 87) as nat
    } else {
        (c as nat - 55) as nat
    }
}

/// The value of hexadecimal digits.
pub open spec fn hex_value(s: Seq<char>) -> nat
    decreases s.len(),
{
    if s.len() == 0 {
        0
    } else {
        hex_value(s.drop_last()) * 16 + hex_digit_value(s.last())
    }
}

pub open spec fn pow16(n: nat) -> nat
    decreases n,
{
    if n == 0 {
        1
    } else {
        16 * pow16((n - 1) as nat)
    }
}

proof fn lemma_hex_value_bound(s: Seq<char>)
    requires
        forall|k: int| 0 <= k < s.len() ==> ascii_hex_digit(#[trigger] s[k]),
    ensures
        hex_value(s) < pow16(s.len()),
    decreases s.len(),
{
    if s.len() > 0 {
        assert forall|k: int| 0 <= k < s.drop_last().len() implies ascii_hex_digit(
            #[trigger] s.drop_last()[k],
        ) by {
            assert(s.drop_last()[k] == s[k]);
        }
        lemma_hex_value_bound(s.drop_last());
        assert(ascii_hex_digit(s[s.len() - 1]));
        let h = hex_value(s.drop_last());
        let p = pow16((s.len() - 1) as nat);
        assert(h * 16 + 15 < 16 * p) by (nonlinear_arith)
            requires
                h < p,
        ;
    }
}

/// The color that a hash token spells: `#` then three, four, six or eight hex digits.
pub open spec fn hex_color_of(src: Seq<char>, t: TokenData) -> Result<ValueView, ValueParseErrorReason> {
    match value_text_of(src, t) {
        None => Err(ValueParseErrorReason::INVALID_COLOR),
        Some(text) => {
            let digits = text.skip(1);
            if text.len() == 0 || text[0] != '#' {
                Err(ValueParseErrorReason::INVALID_COLOR)
            } else if (digits.len() == 3 || digits.len() == 4 || digits.len() == 6 || digits.len()
                == 8) && forall|k: int| 0 <= k < digits.len() ==> ascii_hex_digit(#[trigger] digits[k]) {
                Ok(ValueView::HexColor(hex_value(digits) as u32, digits.len() as usize, t.span))
            } else {
                Err(ValueParseErrorReason::INVALID_COLOR)
            }
        },
    }
}

fn hex_digit(c: char) -> (d: u64)
    requires
        ascii_hex_digit(c),
    ensures
        d == hex_digit_value(c),
        d < 16,
{
    if '0' <= c && c <= '9' {
        (c as u64) - 48
    } else if 'a' <= c && c <= 'f' {
        (c as u64) - 87
    } else {
        (c as u64) - 55
    }
}

fn parse_hex_color(chars: &Vec<char>, token: &TokenData) -> (r: Result<Value, ValueParseError>)
    ensures
        match r {
            Ok(v) => hex_color_of(chars@, *token) == Ok::<ValueView, ValueParseErrorReason>(value_view(v)),
            Err(e) => hex_color_of(chars@, *token) == Err::<ValueView, ValueParseErrorReason>(e.reason),
        },
{
    let (i, j) = match text_range(chars, token) {
        Some(range) => range,
        None => return Err(ValueParseError { reason: ValueParseErrorReason::INVALID_COLOR }),
    };
    let ghost text = chars@.subrange(i as int, j as int);
    if i == j || chars[i] != '#' {
        return Err(ValueParseError { reason: ValueParseErrorReason::INVALID_COLOR });
    }
    let digits = chars_of(chars, i + 1, j);
    assert(digits@ =~= text.skip(1));
    let n = digits.len();
    if !(n == 3 || n == 4 || n == 6 || n == 8) {
        return Err(ValueParseError { reason: ValueParseErrorReason::INVALID_COLOR });
    }
    let mut value: u64 = 0;
    let mut k: usize = 0;
    while k < n
        invariant
            k <= n == digits@.len() <= 8,
            n == 3 || n == 4 || n == 6 || n == 8,
            i < j <= chars@.len(),
            chars@[i as int] == '#',
            text == chars@.subrange(i as int, j as int),
            value_text_of(chars@, *token) == Some(text),
            digits@ == text.skip(1),
            forall|m: int| 0 <= m < k ==> ascii_hex_digit(#[trigger] digits@[m]),
            value == hex_value(digits@.take(k as int)),
            value < pow16(k as nat),
        decreases n - k,
    {
        if !is_ascii_hex_digit(digits[k]) {
            assert(!ascii_hex_digit(digits@[k as int]));
            assert(text[0] == '#');
            return Err(ValueParseError { reason: ValueParseErrorReason::INVALID_COLOR });
        }
        let d = hex_digit(digits[k]);
        proof {
            assert(digits@.take(k + 1).drop_last() =~= digits@.take(k as int));
            assert forall|m: int| 0 <= m < k + 1 implies ascii_hex_digit(#[trigger] digits@.take(k + 1)[m]) by {
                assert(digits@.take(k + 1)[m] == digits@[m]);
            }
            lemma_hex_value_bound(digits@.take(k + 1));
            lemma_pow16_8();
            lemma_pow16_mono((k + 1) as nat, 8);
        }
        value = value * 16 + d;
        k = k + 1;
    }
    proof {
        assert(digits@.take(n as int) =~= digits@);
        lemma_pow16_8();
        lemma_pow16_mono(n as nat, 8);
    }
    Ok(Value::Color(Color::Hex { value: value as u32, digits: n, span: token.span }))
}

proof fn lemma_pow16_8()
    ensures
        pow16(8) == 0x1_0000_0000,
{
    assert(pow16(0) == 1);
    assert(pow16(1) == 16);
    assert(pow16(2) == 256);
    assert(pow16(3) == 4096);
    assert(pow16(4) == 65536);
    assert(pow16(5) == 1048576);
    assert(pow16(6) == 16777216);
    assert(pow16(7) == 268435456);
    assert(pow16(8) == 4294967296);
}

proof fn lemma_pow16_mono(a: nat, b: nat)
    requires
        a <= b,
    ensures
        pow16(a) <= pow16(b),
    decreases b,
{
    if a < b {
        lemma_pow16_mono(a, (b - 1) as nat);
    }
}

// ---------------------------------------------------------------------------------------------
// Scalars.
// ---------------------------------------------------------------------------------------------

/// The number that a numeric token spells: its text without the `%` of a percentage, or the
/// numeric prefix of a dimension with the rest as its unit.
pub open spec fn numeric_of(src: Seq<char>, t: TokenData) -> Result<ValueView, ValueParseErrorReason> {
    match value_text_of(src, t) {
        None => Err(ValueParseErrorReason::INVALID_NUMBER),
        Some(text) => {
            let k = number_prefix_len(text);
            if t.kind == TokenKind::DIMENSION && k == 0 {
                Err(ValueParseErrorReason::INVALID_NUMBER)
            } else {
                let number = if t.kind == TokenKind::NUMBER {
                    text
                } else if t.kind == TokenKind::PERCENTAGE {
                    if text.len() > 0 && text.last() == '%' {
                        text.drop_last()
                    } else {
                        text
                    }
                } else {
                    text.take(k)
                };
                let unit = if t.kind == TokenKind::NUMBER {
                    None
                } else if t.kind == TokenKind::PERCENTAGE {
                    Some("%"@)
                } else {
                    Some(text.skip(k))
                };
                if float_syntax(number) {
                    Ok(ValueView::Number(LiteralView { value: number, unit, span: t.span }))
                } else {
                    Err(ValueParseErrorReason::INVALID_NUMBER)
                }
            }
        },
    }
}

pub open spec fn is_numeric_kind(k: TokenKind) -> bool {
    k == TokenKind::NUMBER || k == TokenKind::PERCENTAGE || k == TokenKind::DIMENSION
}

fn vec_to_string(t: &Vec<char>) -> (s: String)
    ensures
        s@ == t@,
{
    proof {
        assert(t@.subrange(0, t@.len() as int) =~= t@);
    }
    run_string(t, 0, t.len())
}

/// The parts of a numeric token: its number and its unit.
fn numeric_parts(chars: &Vec<char>, token: &TokenData) -> (r: Option<NumericLiteral>)
    requires
        is_numeric_kind(token.kind),
    ensures
        match r {
            Some(l) => numeric_of(chars@, *token) == Ok::<ValueView, ValueParseErrorReason>(ValueView::Number(literal_view(l))),
            None => numeric_of(chars@, *token) == Err::<ValueView, ValueParseErrorReason>(ValueParseErrorReason::INVALID_NUMBER),
        },
{
    let (i, j) = match text_range(chars, token) {
        Some(range) => range,
        None => return None,
    };
    let text = chars_of(chars, i, j);
    let ghost k = number_prefix_len(text@);
    let (number, unit) = if token.kind == TokenKind::NUMBER {
        (chars_of(chars, i, j), None)
    } else if token.kind == TokenKind::PERCENTAGE {
        let mut number = chars_of(chars, i, j);
        if number.len() > 0 && number[number.len() - 1] == '%' {
            number.pop();
        }
        (number, Some(String::from_str("%")))
    } else {
        let index = match number_end(&text) {
            Some(index) => index,
            None => return None,
        };
        (chars_of(&text, 0, index), Some(vec_to_string(&skip_chars(&text, index))))
    };
    proof {
        assert(text@.subrange(0, k) =~= text@.take(k));
    }
    if !is_float_text(&number) {
        return None;
    }
    Some(NumericLiteral { value: vec_to_string(&number), unit, span: token.span })
}

fn parse_numeric_value(chars: &Vec<char>, token: &TokenData) -> (r: Result<Value, ValueParseError>)
    requires
        is_numeric_kind(token.kind),
    ensures
        match r {
            Ok(v) => numeric_of(chars@, *token) == Ok::<ValueView, ValueParseErrorReason>(value_view(v)),
            Err(e) => numeric_of(chars@, *token) == Err::<ValueView, ValueParseErrorReason>(e.reason),
        },
{
    match numeric_parts(chars, token) {
        Some(literal) => Ok(Value::Number(literal)),
        None => Err(ValueParseError { reason: ValueParseErrorReason::INVALID_NUMBER }),
    }
}

/// Whether a function is a color function.
pub open spec fn names_color_function(src: Seq<char>, name: TokenData) -> bool {
    value_text_of(src, name) matches Some(t) && is_color_function(t)
}

/// Whether an identifier is a named color.
pub open spec fn names_color(src: Seq<char>, t: TokenData) -> bool {
    value_text_of(src, t) matches Some(n) && is_named_color(n)
}

fn is_color_function_name(chars: &Vec<char>, token: &TokenData) -> (r: bool)
    ensures
        r == names_color_function(chars@, *token),
{
    match text_range(chars, token) {
        Some((i, j)) => color_function_text(chars, i, j),
        None => false,
    }
}

fn is_named_color_token(chars: &Vec<char>, token: &TokenData) -> (r: bool)
    ensures
        r == names_color(chars@, *token),
{
    match text_range(chars, token) {
        Some((i, j)) => named_color_text(chars, i, j),
        None => false,
    }
}

/// The value of a single component value.
pub open spec fn scalar_of(src: Seq<char>, v: ValueTree) -> Result<ValueView, ValueParseErrorReason> {
    match v {
        ValueTree::Token(t) => {
            if is_numeric_kind(t.kind) {
                numeric_of(src, t)
            } else if t.kind == TokenKind::ID_HASH || t.kind == TokenKind::GENERIC_HASH || t.kind
                == TokenKind::HASH_TOKEN {
                hex_color_of(src, t)
            } else if t.kind == TokenKind::STRING {
                Ok(ValueView::String(t))
            } else if t.kind == TokenKind::IDENT && names_color(src, t) {
                Ok(ValueView::NamedColor(t))
            } else if t.kind == TokenKind::IDENT {
                Ok(ValueView::Keyword(t))
            } else if t.kind == TokenKind::URL {
                Ok(ValueView::Url(t))
            } else {
                Ok(ValueView::Raw(seq![v]))
            }
        },
        ValueTree::Call(name, _, _) => {
            if names_color_function(src, name) {
                Ok(ValueView::ColorFunction(v))
            } else {
                Ok(ValueView::Function(v))
            }
        },
        ValueTree::Block(_, _, _) => Ok(ValueView::Raw(seq![v])),
    }
}

fn single_raw(value: &ComponentValue) -> (r: Value)
    ensures
        value_view(r) == ValueView::Raw(seq![cv_model(*value)]),
{
    let mut values: Vec<ComponentValue> = Vec::new();
    values.push(crate::parser::copy_component_value(value));
    proof {
        assert(values@.drop_last() =~= Seq::<ComponentValue>::empty());
        assert(cvs_model(values@.drop_last()) =~= Seq::<ValueTree>::empty());
        assert(cvs_model(values@) =~= seq![cv_model(*value)]);
    }
    Value::Raw(values)
}

fn parse_scalar_value(chars: &Vec<char>, value: &ComponentValue) -> (r: Result<Value, ValueParseError>)
    ensures
        match r {
            Ok(v) => scalar_of(chars@, cv_model(*value)) == Ok::<ValueView, ValueParseErrorReason>(value_view(v)),
            Err(e) => scalar_of(chars@, cv_model(*value)) == Err::<ValueView, ValueParseErrorReason>(e.reason),
        },
{
    match value {
        ComponentValue::PRESERVED(token) => {
            let kind = token.kind;
            if kind == TokenKind::NUMBER || kind == TokenKind::PERCENTAGE || kind == TokenKind::DIMENSION {
                parse_numeric_value(chars, token)
            } else if kind == TokenKind::ID_HASH || kind == TokenKind::GENERIC_HASH || kind
                == TokenKind::HASH_TOKEN {
                parse_hex_color(chars, token)
            } else if kind == TokenKind::STRING {
                Ok(Value::String(*token))
            } else if kind == TokenKind::IDENT && is_named_color_token(chars, token) {
                Ok(Value::Color(Color::Named(*token)))
            } else if kind == TokenKind::IDENT {
                Ok(Value::Keyword(*token))
            } else if kind == TokenKind::URL {
                Ok(Value::Url(*token))
            } else {
                Ok(single_raw(value))
            }
        },
        ComponentValue::FUNCTION(function) => {
            if is_color_function_name(chars, &function.name) {
                Ok(Value::Color(Color::Function(copy_function(function))))
            } else {
                Ok(Value::Function(copy_function(function)))
            }
        },
        ComponentValue::SIMPLE_BLOCK(_) => Ok(single_raw(value)),
    }
}


// ---------------------------------------------------------------------------------------------
// Value lists.
// ---------------------------------------------------------------------------------------------

/// Where a value list stands after some of its component values.
pub struct ListState {
    pub items: Seq<ValueView>,
    pub separator: Option<ListSeparator>,
    pub saw_separator: bool,
    pub needs_separator: bool,
    pub last_was_separator: bool,
}

pub enum ListStep {
    Going(ListState),
    Done(Result<ValueView, ValueParseErrorReason>),
}

/// The separators seen so far, with one more: `Mixed` once two kinds were seen.
pub open spec fn recorded(separator: Option<ListSeparator>, current: ListSeparator) -> Option<
    ListSeparator,
> {
    match separator {
        None => Some(current),
        Some(existing) => if existing != current {
            Some(ListSeparator::Mixed)
        } else {
            Some(existing)
        },
    }
}

/// A comma or a slash between list items.
pub open spec fn explicit_separator(v: ValueTree) -> Option<ListSeparator> {
    match v {
        ValueTree::Token(t) => if t.kind == TokenKind::COMMA {
            Some(ListSeparator::Comma)
        } else if t.kind == TokenKind::SLASH || t.kind == TokenKind::DELIM('/') {
            Some(ListSeparator::Slash)
        } else {
            None
        },
        _ => None,
    }
}

/// One component value of a list: whitespace marks that a separator is due, a comma or slash
/// separates (but not first nor twice), and two items with nothing between them make the
/// whole value raw.
pub open spec fn list_step(src: Seq<char>, st: ListState, v: ValueTree, all: Seq<ValueTree>) -> ListStep {
    if crate::resolver::is_whitespace_tree(v) {
        ListStep::Going(
            ListState {
                needs_separator: if st.items.len() > 0 && !st.last_was_separator {
                    true
                } else {
                    st.needs_separator
                },
                ..st
            },
        )
    } else if explicit_separator(v) is Some {
        if st.items.len() == 0 || st.last_was_separator {
            ListStep::Done(Err(ValueParseErrorReason::INVALID_LIST))
        } else {
            ListStep::Going(
                ListState {
                    items: st.items,
                    separator: recorded(st.separator, explicit_separator(v)->Some_0),
                    saw_separator: true,
                    needs_separator: false,
                    last_was_separator: true,
                },
            )
        }
    } else if st.items.len() > 0 && !st.needs_separator && !st.saw_separator {
        ListStep::Done(Ok(ValueView::Raw(all)))
    } else {
        let spaced = st.items.len() > 0 && st.needs_separator;
        match scalar_of(src, v) {
            Err(e) => ListStep::Done(Err(e)),
            Ok(item) => ListStep::Going(
                ListState {
                    items: st.items.push(item),
                    separator: if spaced {
                        recorded(st.separator, ListSeparator::Whitespace)
                    } else {
                        st.separator
                    },
                    saw_separator: if spaced {
                        true
                    } else {
                        st.saw_separator
                    },
                    needs_separator: false,
                    last_was_separator: false,
                },
            ),
        }
    }
}

pub open spec fn empty_list_state() -> ListState {
    ListState {
        items: seq![],
        separator: None,
        saw_separator: false,
        needs_separator: false,
        last_was_separator: false,
    }
}

/// The list state after the component values `s` of `all`.
pub open spec fn list_fold(src: Seq<char>, s: Seq<ValueTree>, all: Seq<ValueTree>) -> ListStep
    decreases s.len(),
{
    if s.len() == 0 {
        ListStep::Going(empty_list_state())
    } else {
        match list_fold(src, s.drop_last(), all) {
            ListStep::Done(r) => ListStep::Done(r),
            ListStep::Going(st) => list_step(src, st, s.last(), all),
        }
    }
}

/// The value of a declaration's component values: one item, a list of items with the kind of
/// separator between them (`Mixed` where kinds differ), or the values as they are where they do
/// not form a list.
pub open spec fn value_list_of(src: Seq<char>, all: Seq<ValueTree>) -> Result<ValueView, ValueParseErrorReason> {
    match list_fold(src, all, all) {
        ListStep::Done(r) => r,
        ListStep::Going(st) => {
            if st.items.len() == 0 || (st.needs_separator && st.separator is None) {
                Ok(ValueView::Raw(all))
            } else if st.items.len() == 1 {
                Ok(st.items[0])
            } else {
                Ok(
                    ValueView::List(
                        st.items,
                        match st.separator {
                            Some(sep) => sep,
                            None => ListSeparator::Mixed,
                        },
                    ),
                )
            }
        },
    }
}

fn record_separator(separator: &mut Option<ListSeparator>, current: ListSeparator)
    ensures
        *final(separator) == recorded(*old(separator), current),
{
    match separator {
        None => *separator = Some(current),
        Some(existing) => {
            if *existing != current {
                *existing = ListSeparator::Mixed;
            }
        },
    }
}

fn copy_slice(values: &[ComponentValue]) -> (r: Vec<ComponentValue>)
    ensures
        cvs_model(r@) == cvs_model(values@),
{
    let mut r: Vec<ComponentValue> = Vec::new();
    let mut i: usize = 0;
    while i < values.len()
        invariant
            i <= values@.len(),
            cvs_model(r@) == cvs_model(values@.take(i as int)),
        decreases values@.len() - i,
    {
        let c = crate::parser::copy_component_value(&values[i]);
        let ghost before = r@;
        r.push(c);
        proof {
            assert(r@.drop_last() =~= before);
            assert(values@.take(i + 1).drop_last() =~= values@.take(i as int));
        }
        i = i + 1;
    }
    assert(values@.take(i as int) =~= values@);
    r
}

fn separator_of(value: &ComponentValue) -> (r: Option<ListSeparator>)
    ensures
        r == explicit_separator(cv_model(*value)),
{
    match value {
        ComponentValue::PRESERVED(token) => {
            if token.kind == TokenKind::COMMA {
                Some(ListSeparator::Comma)
            } else if token.kind == TokenKind::SLASH || token.kind == TokenKind::DELIM('/') {
                Some(ListSeparator::Slash)
            } else {
                None
            }
        },
        _ => None,
    }
}

fn is_whitespace_component(value: &ComponentValue) -> (r: bool)
    ensures
        r == crate::resolver::is_whitespace_tree(cv_model(*value)),
{
    match value {
        ComponentValue::PRESERVED(token) => token.kind == TokenKind::WHITESPACE,
        _ => false,
    }
}

/// Parses the component values of a declaration into a value.
pub fn parse_value_list(source: &str, values: &[ComponentValue]) -> (r: Result<Value, ValueParseError>)
    ensures
        match r {
            Ok(v) => value_list_of(source@, cvs_model(values@)) == Ok::<ValueView, ValueParseErrorReason>(value_view(v)),
            Err(e) => value_list_of(source@, cvs_model(values@)) == Err::<ValueView, ValueParseErrorReason>(e.reason),
        },
{
    let chars = source_chars(source);
    parse_value_list_in(&chars, values)
}

fn parse_value_list_in(chars: &Vec<char>, values: &[ComponentValue]) -> (r: Result<Value, ValueParseError>)
    ensures
        match r {
            Ok(v) => value_list_of(chars@, cvs_model(values@)) == Ok::<ValueView, ValueParseErrorReason>(value_view(v)),
            Err(e) => value_list_of(chars@, cvs_model(values@)) == Err::<ValueView, ValueParseErrorReason>(e.reason),
        },
{
    let ghost all = cvs_model(values@);
    let mut items: Vec<Value> = Vec::new();
    let mut separator: Option<ListSeparator> = None;
    let mut saw_separator = false;
    let mut needs_separator = false;
    let mut last_was_separator = false;
    let mut i: usize = 0;
    proof {
        crate::resolver::lemma_cvs_model_len(values@);
        assert(all.take(0) =~= Seq::<ValueTree>::empty());
    }
    while i < values.len()
        invariant
            i <= values@.len(),
            all == cvs_model(values@),
            all.len() == values@.len(),
            list_fold(chars@, all.take(i as int), all) == ListStep::Going(
                ListState {
                    items: values_view(items@),
                    separator,
                    saw_separator,
                    needs_separator,
                    last_was_separator,
                },
            ),
            values_view(items@).len() == items@.len(),
        decreases values@.len() - i,
    {
        proof {
            crate::resolver::lemma_cvs_model_index(values@, i as int);
            assert(all.take(i + 1).drop_last() =~= all.take(i as int));
            assert(all.take(i + 1).last() == all[i as int]);
        }
        let value = &values[i];
        if is_whitespace_component(value) {
            if items.len() > 0 && !last_was_separator {
                needs_separator = true;
            }
            i = i + 1;
            continue ;
        }
        match separator_of(value) {
            Some(current) => {
                if items.len() == 0 || last_was_separator {
                    proof {
                        lemma_list_done(chars@, all, (i + 1) as int);
                    }
                    return Err(ValueParseError { reason: ValueParseErrorReason::INVALID_LIST });
                }
                record_separator(&mut separator, current);
                saw_separator = true;
                needs_separator = false;
                last_was_separator = true;
                i = i + 1;
                continue ;
            },
            None => {},
        }
        if items.len() > 0 && !needs_separator && !saw_separator {
            proof {
                lemma_list_done(chars@, all, (i + 1) as int);
            }
            return Ok(Value::Raw(copy_slice(values)));
        }
        if items.len() > 0 && needs_separator {
            record_separator(&mut separator, ListSeparator::Whitespace);
            saw_separator = true;
        }
        needs_separator = false;
        last_was_separator = false;
        match parse_scalar_value(chars, value) {
            Ok(item) => {
                let ghost before = items@;
                items.push(item);
                proof {
                    assert(items@.drop_last() =~= before);
                }
            },
            Err(e) => {
                proof {
                    lemma_list_done(chars@, all, (i + 1) as int);
                }
                return Err(e);
            },
        }
        i = i + 1;
    }
    proof {
        assert(all.take(i as int) =~= all);
    }
    if items.len() == 0 || (needs_separator && separator.is_none()) {
        return Ok(Value::Raw(copy_slice(values)));
    }
    if items.len() == 1 {
        let ghost view = values_view(items@);
        let item = items.pop().unwrap();
        proof {
            assert(items@.len() == 0);
            assert(view[0] == value_view(item));
        }
        return Ok(item);
    }
    let separator = match separator {
        Some(sep) => sep,
        None => ListSeparator::Mixed,
    };
    Ok(Value::List { items, separator })
}

/// Once the fold is done, it stays done with the same outcome.
proof fn lemma_list_done(src: Seq<char>, all: Seq<ValueTree>, k: int)
    requires
        0 <= k <= all.len(),
        list_fold(src, all.take(k), all) is Done,
    ensures
        list_fold(src, all, all) == list_fold(src, all.take(k), all),
    decreases all.len() - k,
{
    if k < all.len() {
        assert(all.take(k + 1).drop_last() =~= all.take(k));
        lemma_list_done(src, all, k + 1);
    } else {
        assert(all.take(k) =~= all);
    }
}


// ---------------------------------------------------------------------------------------------
// Property grammars.
// ---------------------------------------------------------------------------------------------

/// The grammars that a default registry holds, by property name.
pub open spec fn default_grammars() -> Seq<(Seq<char>, PropertyGrammar)> {
    seq![
        ("color"@, PropertyGrammar::Color),
        ("background-color"@, PropertyGrammar::Color),
        ("width"@, PropertyGrammar::LengthPercentageOrAuto),
        ("height"@, PropertyGrammar::LengthPercentageOrAuto),
        ("margin"@, PropertyGrammar::Margin),
        ("padding"@, PropertyGrammar::Padding),
        ("font-size"@, PropertyGrammar::FontSize),
        ("opacity"@, PropertyGrammar::Opacity),
        ("display"@, PropertyGrammar::Display),
    ]
}

/// The grammar of the first entry whose name matches `name` up to ASCII case.
pub open spec fn grammar_named(entries: Seq<(Seq<char>, PropertyGrammar)>, name: Seq<char>) -> Option<
    PropertyGrammar,
>
    decreases entries.len(),
{
    if entries.len() == 0 {
        None
    } else if matches_lower(name, entries[0].0) {
        Some(entries[0].1)
    } else {
        grammar_named(entries.drop_first(), name)
    }
}

/// The grammar registered for a property, if any.
pub open spec fn grammar_for(
    src: Seq<char>,
    entries: Seq<(Seq<char>, PropertyGrammar)>,
    property: TokenData,
) -> Option<PropertyGrammar> {
    match value_text_of(src, property) {
        Some(name) => grammar_named(entries, name),
        None => None,
    }
}

impl Default for PropertyGrammarRegistry {
    fn default() -> (r: Self)
        ensures
            r.grammars() == default_grammars(),
    {
        let mut entries: Vec<(&'static str, PropertyGrammar)> = Vec::new();
        entries.push(("color", PropertyGrammar::Color));
        entries.push(("background-color", PropertyGrammar::Color));
        entries.push(("width", PropertyGrammar::LengthPercentageOrAuto));
        entries.push(("height", PropertyGrammar::LengthPercentageOrAuto));
        entries.push(("margin", PropertyGrammar::Margin));
        entries.push(("padding", PropertyGrammar::Padding));
        entries.push(("font-size", PropertyGrammar::FontSize));
        entries.push(("opacity", PropertyGrammar::Opacity));
        entries.push(("display", PropertyGrammar::Display));
        let r = Self { entries };
        assert(r.grammars() =~= default_grammars());
        r
    }
}

impl PropertyGrammarRegistry {
    /// The registered grammars, by property name.
    pub closed spec fn grammars(&self) -> Seq<(Seq<char>, PropertyGrammar)> {
        self.entries@.map_values(|e: (&'static str, PropertyGrammar)| (e.0@, e.1))
    }

    fn lookup(&self, chars: &Vec<char>, property: &TokenData) -> (r: Option<PropertyGrammar>)
        ensures
            r == grammar_for(chars@, self.grammars(), *property),
    {
        let (i, j) = match text_range(chars, property) {
            Some(range) => range,
            None => return None,
        };
        let ghost name = chars@.subrange(i as int, j as int);
        let ghost view = self.grammars();
        let mut k: usize = 0;
        assert(view.skip(0) =~= view);
        while k < self.entries.len()
            invariant
                k <= self.entries@.len(),
                view == self.grammars(),
                view.len() == self.entries@.len(),
                i <= j <= chars@.len(),
                name == chars@.subrange(i as int, j as int),
                value_text_of(chars@, *property) == Some(name),
                grammar_named(view, name) == grammar_named(view.skip(k as int), name),
            decreases self.entries@.len() - k,
        {
            proof {
                assert(view.skip(k as int).drop_first() =~= view.skip(k + 1));
                assert(view.skip(k as int)[0] == view[k as int]);
            }
            let (candidate, grammar) = self.entries[k];
            assert(view[k as int] == (candidate@, grammar));
            if text_matches(chars, i, j, candidate) {
                return Some(grammar);
            }
            k = k + 1;
        }
        proof {
            assert(view.skip(k as int).len() == 0);
        }
        None
    }
}

/// Whether a token's text is the word `w`, up to ASCII case.
pub open spec fn text_is(src: Seq<char>, t: TokenData, w: Seq<char>) -> bool {
    value_text_of(src, t) matches Some(n) && matches_lower(n, w)
}

/// Whether a function is `calc`, `min`, `max` or `clamp`, up to ASCII case.
pub open spec fn is_math_call(src: Seq<char>, f: ValueTree) -> bool {
    f matches ValueTree::Call(name, _, _) && value_text_of(src, name) matches Some(n) && is_math_function(n)
}

/// A length or percentage: a zero number, a number with a unit, `auto` where allowed, or a
/// math function.
pub open spec fn length_percentage_of(src: Seq<char>, v: ValueView, allow_auto: bool) -> bool {
    match v {
        ValueView::Number(l) => if l.unit is None {
            zero_text(l.value)
        } else {
            true
        },
        ValueView::Keyword(t) => allow_auto && text_is(src, t, "auto"@),
        ValueView::Function(f) => is_math_call(src, f),
        _ => false,
    }
}

/// One to four lengths or percentages, or a single one.
pub open spec fn box_shorthand_of(src: Seq<char>, v: ValueView, allow_auto: bool) -> bool {
    match v {
        ValueView::List(items, _) => if 1 <= items.len() <= 4 {
            forall|k: int| 0 <= k < items.len() ==> length_percentage_of(src, #[trigger] items[k], allow_auto)
        } else {
            length_percentage_of(src, v, allow_auto)
        },
        _ => length_percentage_of(src, v, allow_auto),
    }
}

/// Whether a value is one that the grammar accepts.
pub open spec fn accepts(src: Seq<char>, grammar: PropertyGrammar, v: ValueView) -> bool {
    match grammar {
        PropertyGrammar::Color => v is HexColor || v is NamedColor || v is ColorFunction,
        PropertyGrammar::LengthPercentageOrAuto => match v {
            ValueView::Number(l) => if l.unit is None {
                zero_text(l.value)
            } else {
                true
            },
            ValueView::Keyword(t) => text_is(src, t, "auto"@),
            ValueView::Function(f) => is_math_call(src, f),
            _ => false,
        },
        PropertyGrammar::LengthPercentage => length_percentage_of(src, v, false),
        PropertyGrammar::Margin => box_shorthand_of(src, v, true),
        PropertyGrammar::Padding => box_shorthand_of(src, v, false),
        PropertyGrammar::FontSize => length_percentage_of(src, v, false) || (v matches ValueView::Keyword(t)
            && value_text_of(src, t) matches Some(n) && is_font_size_keyword(n)),
        PropertyGrammar::Opacity => match v {
            ValueView::Number(l) => l.unit is None || l.unit == Some("%"@),
            _ => false,
        },
        PropertyGrammar::Display => v matches ValueView::Keyword(t) && value_text_of(src, t) matches Some(
            n,
        ) && is_display_keyword(n),
    }
}

fn token_is(chars: &Vec<char>, token: &TokenData, word: &str) -> (r: bool)
    ensures
        r == text_is(chars@, *token, word@),
{
    match text_range(chars, token) {
        Some((i, j)) => text_matches(chars, i, j, word),
        None => false,
    }
}

fn is_math_function_name(chars: &Vec<char>, function: &Function) -> (r: bool)
    ensures
        r == is_math_call(chars@, function_model(*function)),
{
    match text_range(chars, &function.name) {
        Some((i, j)) => math_function_text(chars, i, j),
        None => false,
    }
}

fn number_is_zero(literal: &NumericLiteral) -> (r: bool)
    ensures
        r == zero_text(literal.value@),
{
    let text = source_chars(literal.value.as_str());
    is_zero_text(&text)
}

fn is_length_percentage_value(chars: &Vec<char>, value: &Value, allow_auto: bool) -> (r: bool)
    ensures
        r == length_percentage_of(chars@, value_view(*value), allow_auto),
{
    match value {
        Value::Number(literal) => match &literal.unit {
            None => number_is_zero(literal),
            Some(_) => true,
        },
        Value::Keyword(token) => allow_auto && token_is(chars, token, "auto"),
        Value::Function(function) => is_math_function_name(chars, function),
        _ => false,
    }
}

fn is_box_shorthand(chars: &Vec<char>, value: &Value, allow_auto: bool) -> (r: bool)
    ensures
        r == box_shorthand_of(chars@, value_view(*value), allow_auto),
{
    match value {
        Value::List { items, separator } => {
            proof {
                lemma_values_view_len(items@);
            }
            if 1 <= items.len() && items.len() <= 4 {
                let ghost view = values_view(items@);
                proof {
                    lemma_values_view_len(items@);
                }
                let mut k: usize = 0;
                while k < items.len()
                    invariant
                        k <= items@.len(),
                        view == values_view(items@),
                        view.len() == items@.len(),
                        1 <= items@.len() <= 4,
                        value_view(*value) == ValueView::List(view, *separator),
                        forall|m: int| 0 <= m < k ==> length_percentage_of(chars@, #[trigger] view[m], allow_auto),
                    decreases items@.len() - k,
                {
                    proof {
                        lemma_values_view_index(items@, k as int);
                    }
                    if !is_length_percentage_value(chars, &items[k], allow_auto) {
                        assert(!length_percentage_of(chars@, view[k as int], allow_auto));
                        return false;
                    }
                    k = k + 1;
                }
                true
            } else {
                is_length_percentage_value(chars, value, allow_auto)
            }
        },
        _ => is_length_percentage_value(chars, value, allow_auto),
    }
}

pub proof fn lemma_values_view_len(s: Seq<Value>)
    ensures
        values_view(s).len() == s.len(),
    decreases s.len(),
{
    if s.len() > 0 {
        lemma_values_view_len(s.drop_last());
    }
}

pub proof fn lemma_values_view_index(s: Seq<Value>, i: int)
    requires
        0 <= i < s.len(),
    ensures
        values_view(s)[i] == value_view(s[i]),
    decreases s.len(),
{
    lemma_values_view_len(s);
    if i < s.len() - 1 {
        lemma_values_view_index(s.drop_last(), i);
    }
}

fn keyword_in(chars: &Vec<char>, value: &Value, display: bool) -> (r: bool)
    ensures
        r == (value_view(*value) matches ValueView::Keyword(t) && value_text_of(chars@, t) matches Some(n)
            && if display {
            is_display_keyword(n)
        } else {
            is_font_size_keyword(n)
        }),
{
    match value {
        Value::Keyword(token) => match text_range(chars, token) {
            Some((i, j)) => if display {
                display_keyword_text(chars, i, j)
            } else {
                font_size_keyword_text(chars, i, j)
            },
            None => false,
        },
        _ => false,
    }
}

fn unit_is_percent(unit: &String) -> (r: bool)
    ensures
        r == (unit@ == "%"@),
{
    let text = source_chars(unit.as_str());
    let percent = source_chars("%");
    if text.len() != percent.len() {
        return false;
    }
    let mut k: usize = 0;
    while k < text.len()
        invariant
            k <= text@.len() == percent@.len(),
            text@ == unit@,
            percent@ == "%"@,
            forall|m: int| 0 <= m < k ==> text@[m] == percent@[m],
        decreases text@.len() - k,
    {
        if text[k] != percent[k] {
            return false;
        }
        k = k + 1;
    }
    assert(text@ =~= percent@);
    true
}

fn grammar_accepts(chars: &Vec<char>, grammar: PropertyGrammar, value: &Value) -> (r: bool)
    ensures
        r == accepts(chars@, grammar, value_view(*value)),
{
    match grammar {
        PropertyGrammar::Color => match value {
            Value::Color(_) => true,
            _ => false,
        },
        PropertyGrammar::LengthPercentageOrAuto => match value {
            Value::Number(literal) => match &literal.unit {
                None => number_is_zero(literal),
                Some(_) => true,
            },
            Value::Keyword(token) => token_is(chars, token, "auto"),
            Value::Function(function) => is_math_function_name(chars, function),
            _ => false,
        },
        PropertyGrammar::LengthPercentage => is_length_percentage_value(chars, value, false),
        PropertyGrammar::Margin => is_box_shorthand(chars, value, true),
        PropertyGrammar::Padding => is_box_shorthand(chars, value, false),
        PropertyGrammar::FontSize => is_length_percentage_value(chars, value, false) || keyword_in(
            chars,
            value,
            false,
        ),
        PropertyGrammar::Opacity => match value {
            Value::Number(literal) => match &literal.unit {
                None => true,
                Some(unit) => unit_is_percent(unit),
            },
            _ => false,
        },
        PropertyGrammar::Display => keyword_in(chars, value, true),
    }
}

/// What analyzing a declaration gives: its value when it parses and the grammar registered for
/// the property, if any, accepts it.
pub open spec fn analysis_of(
    src: Seq<char>,
    declaration: Declaration,
    entries: Seq<(Seq<char>, PropertyGrammar)>,
) -> Result<ValueView, PropertyErrorReason> {
    match value_list_of(src, cvs_model(declaration.value@)) {
        Err(_) => Err(PropertyErrorReason::INVALID_VALUE_SYNTAX),
        Ok(v) => match grammar_for(src, entries, declaration.name) {
            Some(g) => if accepts(src, g, v) {
                Ok(v)
            } else {
                Err(PropertyErrorReason::INVALID_VALUE)
            },
            None => Ok(v),
        },
    }
}

/// Parses a declaration's value and checks it against the grammar registered for its property;
/// properties without one accept any value that parses.
pub fn analyze_declaration(
    source: &str,
    declaration: &Declaration,
    registry: &PropertyGrammarRegistry,
) -> (r: Result<AnalyzedDeclaration, PropertyError>)
    ensures
        match r {
            Ok(a) => {
                &&& a.property == declaration.name
                &&& a.important == declaration.important
                &&& analysis_of(source@, *declaration, registry.grammars()) == Ok::<ValueView, PropertyErrorReason>(value_view(a.value))
            },
            Err(e) => {
                &&& e.property == declaration.name
                &&& analysis_of(source@, *declaration, registry.grammars()) == Err::<ValueView, PropertyErrorReason>(e.reason)
            },
        },
{
    let chars = source_chars(source);
    let grammar = registry.lookup(&chars, &declaration.name);
    let value = match parse_value_list_in(&chars, declaration.value.as_slice()) {
        Ok(value) => value,
        Err(_) => {
            return Err(
                PropertyError {
                    reason: PropertyErrorReason::INVALID_VALUE_SYNTAX,
                    property: declaration.name,
                },
            );
        },
    };
    if let Some(grammar) = grammar {
        if !grammar_accepts(&chars, grammar, &value) {
            return Err(PropertyError { reason: PropertyErrorReason::INVALID_VALUE, property: declaration.name });
        }
    }
    Ok(AnalyzedDeclaration { property: declaration.name, value, important: declaration.important })
}


// ---------------------------------------------------------------------------------------------
// Expression types.
// ---------------------------------------------------------------------------------------------

pub enum NumericTypeView {
    Number,
    Percentage,
    Dimension(Seq<char>),
}

pub open spec fn type_view(t: NumericType) -> NumericTypeView {
    match t {
        NumericType::Number => NumericTypeView::Number,
        NumericType::Percentage => NumericTypeView::Percentage,
        NumericType::Dimension(category) => NumericTypeView::Dimension(category@),
    }
}

/// ASCII lower case.
pub open spec fn ascii_lower(c: char) -> char {
    if 'A' <= c && c <= 'Z' {
        ((c as u32) + 32) as char
    } else {
        c
    }
}

pub open spec fn ascii_lower_text(t: Seq<char>) -> Seq<char> {
    Seq::new(t.len(), |k: int| ascii_lower(t[k]))
}

/// The kind of quantity that a unit measures, by ASCII-insensitive name; `unit:` and the unit in
/// lower case for one that is not known.
pub open spec fn dimension_category_of(unit: Seq<char>) -> Seq<char> {
    if is_length_unit(unit) {
        "length"@
    } else if is_angle_unit(unit) {
        "angle"@
    } else if is_time_unit(unit) {
        "time"@
    } else if is_frequency_unit(unit) {
        "frequency"@
    } else if is_resolution_unit(unit) {
        "resolution"@
    } else if matches_lower(unit, "fr"@) {
        "flex"@
    } else {
        "unit:"@ + ascii_lower_text(unit)
    }
}

/// The type of a literal: a number, a percentage, or a dimension of its unit's category.
pub open spec fn literal_type(l: LiteralView) -> NumericTypeView {
    match l.unit {
        None => NumericTypeView::Number,
        Some(u) => if u == "%"@ {
            NumericTypeView::Percentage
        } else {
            NumericTypeView::Dimension(dimension_category_of(u))
        },
    }
}

/// The type of an expression: sums need operands of one type, products a number on one side,
/// quotients a number on the right, and `min`, `max` and `clamp` arguments of one type.
pub open spec fn type_of(e: ExprView) -> Result<NumericTypeView, SemanticErrorReason>
    decreases e, 0nat,
{
    match e {
        ExprView::Literal(l) => Ok(literal_type(l)),
        ExprView::Group(a) => type_of(*a),
        ExprView::Add(a, b) => sum_type(type_of(*a), type_of(*b)),
        ExprView::Subtract(a, b) => sum_type(type_of(*a), type_of(*b)),
        ExprView::Multiply(a, b) => match type_of(*a) {
            Err(x) => Err(x),
            Ok(left) => match type_of(*b) {
                Err(x) => Err(x),
                Ok(right) => if left is Number {
                    Ok(right)
                } else if right is Number {
                    Ok(left)
                } else {
                    Err(SemanticErrorReason::INVALID_MULTIPLICATION)
                },
            },
        },
        ExprView::Divide(a, b) => match type_of(*a) {
            Err(x) => Err(x),
            Ok(left) => match type_of(*b) {
                Err(x) => Err(x),
                Ok(right) => if right is Number {
                    Ok(left)
                } else {
                    Err(SemanticErrorReason::INVALID_DIVISION)
                },
            },
        },
        ExprView::Min(args) => same_type_of(args),
        ExprView::Max(args) => same_type_of(args),
        ExprView::Clamp(a, b, c) => sum_type(sum_type(type_of(*a), type_of(*b)), type_of(*c)),
    }
}

/// Two operands of one type give that type.
pub open spec fn sum_type(
    a: Result<NumericTypeView, SemanticErrorReason>,
    b: Result<NumericTypeView, SemanticErrorReason>,
) -> Result<NumericTypeView, SemanticErrorReason> {
    match a {
        Err(x) => Err(x),
        Ok(left) => match b {
            Err(x) => Err(x),
            Ok(right) => if left == right {
                Ok(left)
            } else {
                Err(SemanticErrorReason::INCOMPATIBLE_ADDITION)
            },
        },
    }
}

/// The one type of all the arguments, taken in order.
pub open spec fn same_type_of(s: Seq<ExprView>) -> Result<NumericTypeView, SemanticErrorReason>
    decreases s, 1nat,
{
    if s.len() == 0 {
        Err(SemanticErrorReason::INCOMPATIBLE_ADDITION)
    } else if s.len() == 1 {
        type_of(s[0])
    } else {
        sum_type(same_type_of(s.drop_last()), type_of(s.last()))
    }
}

fn lower_char(c: char) -> (d: char)
    ensures
        d == ascii_lower(c),
{
    if 'A' <= c && c <= 'Z' {
        let b = (c as u8) + 32;
        assert(b == (c as u32) + 32);
        b as char
    } else {
        c
    }
}

fn dimension_category(unit: &String) -> (r: String)
    ensures
        r@ == dimension_category_of(unit@),
{
    let chars = source_chars(unit.as_str());
    let n = chars.len();
    proof {
        assert(chars@.subrange(0, n as int) =~= chars@);
    }
    if length_unit_text(&chars, 0, n) {
        String::from_str("length")
    } else if angle_unit_text(&chars, 0, n) {
        String::from_str("angle")
    } else if time_unit_text(&chars, 0, n) {
        String::from_str("time")
    } else if frequency_unit_text(&chars, 0, n) {
        String::from_str("frequency")
    } else if resolution_unit_text(&chars, 0, n) {
        String::from_str("resolution")
    } else if text_matches(&chars, 0, n, "fr") {
        String::from_str("flex")
    } else {
        let mut r = String::from_str("unit:");
        let mut k: usize = 0;
        while k < n
            invariant
                k <= n == chars@.len(),
                chars@ == unit@,
                r@ == "unit:"@ + ascii_lower_text(chars@.take(k as int)),
            decreases n - k,
        {
            crate::text::push_char(&mut r, lower_char(chars[k]));
            assert(ascii_lower_text(chars@.take(k + 1)) =~= ascii_lower_text(chars@.take(k as int)).push(
                ascii_lower(chars@[k as int]),
            ));
            k = k + 1;
        }
        assert(chars@.take(n as int) =~= chars@);
        r
    }
}

fn literal_numeric_type(literal: &NumericLiteral) -> (t: NumericType)
    ensures
        type_view(t) == literal_type(literal_view(*literal)),
{
    match &literal.unit {
        None => NumericType::Number,
        Some(unit) => if unit_is_percent(unit) {
            NumericType::Percentage
        } else {
            NumericType::Dimension(dimension_category(unit))
        },
    }
}

fn same_numeric_type(a: &NumericType, b: &NumericType) -> (r: bool)
    ensures
        r == (type_view(*a) == type_view(*b)),
{
    match (a, b) {
        (NumericType::Number, NumericType::Number) => true,
        (NumericType::Percentage, NumericType::Percentage) => true,
        (NumericType::Dimension(x), NumericType::Dimension(y)) => *x == *y,
        _ => false,
    }
}

fn sum_numeric_type(
    a: Result<NumericType, SemanticError>,
    b: Result<NumericType, SemanticError>,
) -> (r: Result<NumericType, SemanticError>)
    ensures
        type_result(r) == sum_type(type_result(a), type_result(b)),
{
    let left = match a {
        Ok(t) => t,
        Err(e) => return Err(e),
    };
    let right = match b {
        Ok(t) => t,
        Err(e) => return Err(e),
    };
    if same_numeric_type(&left, &right) {
        Ok(left)
    } else {
        Err(SemanticError { reason: SemanticErrorReason::INCOMPATIBLE_ADDITION })
    }
}

pub open spec fn type_result(r: Result<NumericType, SemanticError>) -> Result<NumericTypeView, SemanticErrorReason> {
    match r {
        Ok(t) => Ok(type_view(t)),
        Err(e) => Err(e.reason),
    }
}

/// The numeric type of an expression, or why its operands do not fit together.
pub fn analyze_expression(expression: &Expr) -> (r: Result<NumericType, SemanticError>)
    ensures
        type_result(r) == type_of(expr_view(*expression)),
    decreases expression, 0nat,
{
    match expression {
        Expr::Literal(literal) => Ok(literal_numeric_type(literal)),
        Expr::Group(inner) => analyze_expression(inner),
        Expr::Add(left, right) => {
            let a = analyze_expression(left);
            if let Err(e) = a {
                return Err(e);
            }
            sum_numeric_type(a, analyze_expression(right))
        },
        Expr::Subtract(left, right) => {
            let a = analyze_expression(left);
            if let Err(e) = a {
                return Err(e);
            }
            sum_numeric_type(a, analyze_expression(right))
        },
        Expr::Multiply(left, right) => {
            let left_type = match analyze_expression(left) {
                Ok(t) => t,
                Err(e) => return Err(e),
            };
            let right_type = match analyze_expression(right) {
                Ok(t) => t,
                Err(e) => return Err(e),
            };
            match (left_type, right_type) {
                (NumericType::Number, value) => Ok(value),
                (value, NumericType::Number) => Ok(value),
                _ => Err(SemanticError { reason: SemanticErrorReason::INVALID_MULTIPLICATION }),
            }
        },
        Expr::Divide(left, right) => {
            let left_type = match analyze_expression(left) {
                Ok(t) => t,
                Err(e) => return Err(e),
            };
            let right_type = match analyze_expression(right) {
                Ok(t) => t,
                Err(e) => return Err(e),
            };
            match (left_type, right_type) {
                (value, NumericType::Number) => Ok(value),
                _ => Err(SemanticError { reason: SemanticErrorReason::INVALID_DIVISION }),
            }
        },
        Expr::Min(arguments) => analyze_same_type(arguments),
        Expr::Max(arguments) => analyze_same_type(arguments),
        Expr::Clamp { min, value, max } => {
            let a = analyze_expression(min);
            if let Err(e) = a {
                return Err(e);
            }
            let b = analyze_expression(value);
            if let Err(e) = b {
                return Err(e);
            }
            let ab = sum_numeric_type(a, b);
            if let Err(e) = ab {
                return Err(e);
            }
            sum_numeric_type(ab, analyze_expression(max))
        },
    }
}

/// The one type of all the arguments.
fn analyze_same_type(expressions: &Vec<Expr>) -> (r: Result<NumericType, SemanticError>)
    ensures
        type_result(r) == same_type_of(exprs_view(expressions@)),
    decreases expressions, 1nat,
{
    proof {
        lemma_exprs_view_len(expressions@);
    }
    if expressions.len() == 0 {
        return Err(SemanticError { reason: SemanticErrorReason::INCOMPATIBLE_ADDITION });
    }
    let ghost view = exprs_view(expressions@);
    proof {
        lemma_exprs_view_index(expressions@, 0);
        assert(decreases_to!(expressions => expressions@[0]));
    }
    let mut result = analyze_expression(&expressions[0]);
    let mut i: usize = 1;
    proof {
        assert(view.take(1) =~= seq![view[0]]);
    }
    while i < expressions.len()
        invariant
            1 <= i <= expressions@.len(),
            view == exprs_view(expressions@),
            view.len() == expressions@.len(),
            type_result(result) == same_type_of(view.take(i as int)),
        decreases expressions@.len() - i,
    {
        proof {
            lemma_exprs_view_index(expressions@, i as int);
            assert(view.take(i + 1).drop_last() =~= view.take(i as int));
            assert(view.take(i + 1).last() == view[i as int]);
            assert(decreases_to!(expressions => expressions@[i as int]));
        }
        if let Err(e) = result {
            proof {
                lemma_same_type_error(view, i as int);
            }
            return Err(e);
        }
        result = sum_numeric_type(result, analyze_expression(&expressions[i]));
        i = i + 1;
    }
    proof {
        assert(view.take(i as int) =~= view);
    }
    result
}

proof fn lemma_same_type_error(s: Seq<ExprView>, i: int)
    requires
        1 <= i <= s.len(),
        same_type_of(s.take(i)) is Err,
    ensures
        same_type_of(s) == same_type_of(s.take(i)),
    decreases s.len() - i,
{
    if i < s.len() {
        assert(s.take(i + 1).drop_last() =~= s.take(i));
        lemma_same_type_error(s, i + 1);
    } else {
        assert(s.take(i) =~= s);
    }
}

pub proof fn lemma_exprs_view_len(s: Seq<Expr>)
    ensures
        exprs_view(s).len() == s.len(),
    decreases s.len(),
{
    if s.len() > 0 {
        lemma_exprs_view_len(s.drop_last());
    }
}

pub proof fn lemma_exprs_view_index(s: Seq<Expr>, i: int)
    requires
        0 <= i < s.len(),
    ensures
        exprs_view(s)[i] == expr_view(s[i]),
    decreases s.len(),
{
    lemma_exprs_view_len(s);
    if i < s.len() - 1 {
        lemma_exprs_view_index(s.drop_last(), i);
    }
}

/// Whether a unit needs context to be folded: a percentage, or a font- or viewport-relative
/// length.
pub open spec fn context_dependent(unit: Option<Seq<char>>) -> bool {
    match unit {
        Some(u) => is_context_unit(u),
        None => false,
    }
}

/// Whether a unit needs context to be folded.
pub fn is_context_dependent(unit: &Option<String>) -> (r: bool)
    ensures
        r == context_dependent(opt_text(*unit)),
{
    match unit {
        Some(u) => {
            let chars = source_chars(u.as_str());
            proof {
                assert(chars@.subrange(0, chars@.len() as int) =~= chars@);
            }
            context_unit_text(&chars, 0, chars.len())
        },
        None => false,
    }
}


/// An arithmetic operation between two folded numbers, as far as their units go.
#[derive(Debug, Clone, Copy, PartialEq, Eq, Structural)]
pub enum UnitOperation {
    AddOrSubtract,
    Multiply,
    Divide,
}

/// What the units of two folded numbers allow: folding, with the unit of the result; leaving
/// the expression for later; or an invalid operation.
#[derive(Debug, Clone, PartialEq, Eq)]
pub enum UnitOutcome {
    Fold(Option<String>),
    Defer,
    Invalid,
}

/// The unit outcome as a mathematical value.
pub open spec fn unit_outcome_view(o: UnitOutcome) -> Option<Option<Option<Seq<char>>>> {
    match o {
        UnitOutcome::Fold(u) => Some(Some(opt_text(u))),
        UnitOutcome::Defer => Some(None),
        UnitOutcome::Invalid => None,
    }
}

/// The unit rules of folding: a sum needs equal units; a product may have a unit on one side
/// only; a quotient may not divide by a unit; a unit that needs context defers any of them.
pub open spec fn unit_rule(
    op: UnitOperation,
    left: Option<Seq<char>>,
    right: Option<Seq<char>>,
) -> Option<Option<Option<Seq<char>>>> {
    if context_dependent(left) || context_dependent(right) {
        Some(None)
    } else {
        match op {
            UnitOperation::AddOrSubtract => if left == right {
                Some(Some(left))
            } else {
                Some(None)
            },
            UnitOperation::Multiply => if left is Some && right is Some {
                None
            } else if left is Some {
                Some(Some(left))
            } else {
                Some(Some(right))
            },
            UnitOperation::Divide => if right is Some {
                None
            } else {
                Some(Some(left))
            },
        }
    }
}

/// Whether two units are the same (both absent, or the same text).
pub fn same_unit(a: &Option<String>, b: &Option<String>) -> (r: bool)
    ensures
        r == (opt_text(*a) == opt_text(*b)),
{
    match (a, b) {
        (None, None) => true,
        (Some(x), Some(y)) => {
            let xs = crate::resolver::source_chars(x.as_str());
            let ys = crate::resolver::source_chars(y.as_str());
            if xs.len() != ys.len() {
                proof {
                    assert(x@.len() != y@.len());
                }
                return false;
            }
            let mut i: usize = 0;
            while i < xs.len()
                invariant
                    xs@ == x@,
                    ys@ == y@,
                    opt_text(*a) == Some(x@),
                    opt_text(*b) == Some(y@),
                    xs.len() == ys.len(),
                    i <= xs.len(),
                    forall|k: int| 0 <= k < i ==> xs@[k] == ys@[k],
                decreases xs.len() - i,
            {
                if xs[i] != ys[i] {
                    proof {
                        assert(x@[i as int] != y@[i as int]);
                        assert(x@ != y@);
                    }
                    return false;
                }
                i = i + 1;
            }
            proof {
                assert(x@ =~= y@);
            }
            true
        },
        _ => false,
    }
}

fn copy_unit(u: &Option<String>) -> (r: Option<String>)
    ensures
        opt_text(r) == opt_text(*u),
{
    match u {
        Some(u) => Some(u.clone()),
        None => None,
    }
}

/// Applies the unit rules of folding to the units of two folded numbers.
pub fn combine_units(op: UnitOperation, left: &Option<String>, right: &Option<String>) -> (r:
    UnitOutcome)
    ensures
        unit_outcome_view(r) == unit_rule(op, opt_text(*left), opt_text(*right)),
{
    if is_context_dependent(left) || is_context_dependent(right) {
        return UnitOutcome::Defer;
    }
    match op {
        UnitOperation::AddOrSubtract => if same_unit(left, right) {
            UnitOutcome::Fold(copy_unit(left))
        } else {
            UnitOutcome::Defer
        },
        UnitOperation::Multiply => if left.is_some() && right.is_some() {
            UnitOutcome::Invalid
        } else if left.is_some() {
            UnitOutcome::Fold(copy_unit(left))
        } else {
            UnitOutcome::Fold(copy_unit(right))
        },
        UnitOperation::Divide => if right.is_some() {
            UnitOutcome::Invalid
        } else {
            UnitOutcome::Fold(copy_unit(left))
        },
    }
}

/// Whether folded numbers can be compared (`min`, `max`, `clamp`): all have the unit of the
/// first, and none needs context.
pub fn comparable_units(units: &Vec<Option<String>>) -> (r: bool)
    ensures
        r == (forall|i: int|
            0 <= i < units@.len() ==> opt_text(#[trigger] units@[i]) == opt_text(units@[0])
                && !context_dependent(opt_text(units@[i]))),
{
    let mut i: usize = 0;
    while i < units.len()
        invariant
            i <= units.len(),
            forall|k: int|
                0 <= k < i ==> opt_text(#[trigger] units@[k]) == opt_text(units@[0])
                    && !context_dependent(opt_text(units@[k])),
        decreases units.len() - i,
    {
        if !same_unit(&units[i], &units[0]) || is_context_dependent(&units[i]) {
            return false;
        }
        i = i + 1;
    }
    true
}

// ---------------------------------------------------------------------------------------------
// Math expressions: the grammar.
// ---------------------------------------------------------------------------------------------

/// The result of parsing at a position: the expression and the position after it.
pub type Parsed = Result<(ExprView, int), ExpressionError>;

/// The first position at or after `p` that is not whitespace.
pub open spec fn skip_ws(vs: Seq<ValueTree>, p: int) -> int
    decreases vs.len() - p,
{
    if 0 <= p < vs.len() && crate::resolver::is_whitespace_tree(vs[p]) {
        skip_ws(vs, p + 1)
    } else {
        p
    }
}

pub proof fn lemma_skip_ws(vs: Seq<ValueTree>, p: int)
    requires
        0 <= p,
    ensures
        p <= skip_ws(vs, p),
        p <= vs.len() ==> skip_ws(vs, p) <= vs.len(),
    decreases vs.len() - p,
{
    if 0 <= p < vs.len() && crate::resolver::is_whitespace_tree(vs[p]) {
        lemma_skip_ws(vs, p + 1);
    }
}

/// The token at `p`, where a token stands there.
pub open spec fn token_at(vs: Seq<ValueTree>, p: int) -> Option<TokenData> {
    if 0 <= p < vs.len() && vs[p] is Token {
        Some(vs[p]->Token_0)
    } else {
        None
    }
}

/// The last token among `vs` (not inside blocks or functions).
pub open spec fn last_token(vs: Seq<ValueTree>) -> Option<TokenData>
    decreases vs.len(),
{
    if vs.len() == 0 {
        None
    } else if vs.last() is Token {
        Some(vs.last()->Token_0)
    } else {
        last_token(vs.drop_last())
    }
}

/// An error at `token`, else at the last token of `vs`, else at line 0, span (0, 0).
pub open spec fn error_at_token(
    reason: ExpressionErrorReason,
    token: Option<TokenData>,
    vs: Seq<ValueTree>,
) -> ExpressionError {
    let at = match token {
        Some(t) => Some(t),
        None => last_token(vs),
    };
    match at {
        Some(t) => ExpressionError { reason, line: t.line, span: t.span },
        None => ExpressionError { reason, line: 0, span: LexerSpan(0, 0) },
    }
}

/// `Some(true)` for an addition sign, `Some(false)` for a subtraction sign.
pub open spec fn additive_op(vs: Seq<ValueTree>, q: int) -> Option<bool> {
    match token_at(vs, q) {
        Some(t) => if t.kind == TokenKind::PLUS || t.kind == TokenKind::DELIM('+') {
            Some(true)
        } else if t.kind == TokenKind::HYPHEN || t.kind == TokenKind::DELIM('-') {
            Some(false)
        } else {
            None
        },
        None => None,
    }
}

/// `Some(true)` for a multiplication sign, `Some(false)` for a division sign.
pub open spec fn multiplicative_op(vs: Seq<ValueTree>, q: int) -> Option<bool> {
    match token_at(vs, q) {
        Some(t) => if t.kind == TokenKind::STAR || t.kind == TokenKind::DELIM('*') {
            Some(true)
        } else if t.kind == TokenKind::SLASH || t.kind == TokenKind::DELIM('/') {
            Some(false)
        } else {
            None
        },
        None => None,
    }
}

/// The pieces of a function's arguments between commas.
pub open spec fn split_args(s: Seq<ValueTree>) -> Seq<Seq<ValueTree>>
    decreases s.len(),
{
    if s.len() == 0 {
        seq![seq![]]
    } else {
        let r = split_args(s.drop_last());
        if crate::resolver::is_comma_tree(s.last()) {
            r.push(seq![])
        } else {
            r.update(r.len() - 1, r.last().push(s.last()))
        }
    }
}

pub proof fn lemma_split_args(s: Seq<ValueTree>)
    ensures
        split_args(s).len() >= 1,
        forall|i: int|
            0 <= i < split_args(s).len() ==> #[trigger] trees_size(split_args(s)[i]) <= trees_size(s)
                && split_args(s)[i].len() <= s.len(),
    decreases s.len(),
{
    if s.len() > 0 {
        lemma_split_args(s.drop_last());
        let r = split_args(s.drop_last());
        let out = split_args(s);
        crate::resolver::lemma_tree_size_positive(s.last());
        assert(trees_size(s) == trees_size(s.drop_last()) + tree_size(s.last()));
        if crate::resolver::is_comma_tree(s.last()) {
            assert forall|i: int| 0 <= i < out.len() implies #[trigger] trees_size(out[i]) <= trees_size(s)
                && out[i].len() <= s.len() by {
                if i < r.len() {
                    assert(out[i] == r[i]);
                    assert(trees_size(r[i]) <= trees_size(s.drop_last()));
                } else {
                    assert(out[i] == Seq::<ValueTree>::empty());
                }
            }
        } else {
            let grown = r.last().push(s.last());
            assert(grown.drop_last() =~= r.last());
            assert(grown.last() == s.last());
            assert(r[r.len() - 1] == r.last());
            assert(trees_size(r[r.len() - 1]) <= trees_size(s.drop_last()));
            assert forall|i: int| 0 <= i < out.len() implies #[trigger] trees_size(out[i]) <= trees_size(s)
                && out[i].len() <= s.len() by {
                if i < r.len() - 1 {
                    assert(out[i] == r[i]);
                    assert(trees_size(r[i]) <= trees_size(s.drop_last()));
                } else {
                    assert(out[i] == grown);
                }
            }
        }
    }
}

pub open spec fn is_blank(s: Seq<ValueTree>) -> bool {
    forall|k: int| 0 <= k < s.len() ==> crate::resolver::is_whitespace_tree(#[trigger] s[k])
}

pub proof fn lemma_trees_size_subrange(s: Seq<ValueTree>, i: int, j: int)
    requires
        0 <= i <= j <= s.len(),
    ensures
        trees_size(s.subrange(i, j)) <= trees_size(s),
    decreases s.len(),
{
    if j < s.len() {
        assert(s.drop_last().subrange(i, j) =~= s.subrange(i, j));
        lemma_trees_size_subrange(s.drop_last(), i, j);
        crate::resolver::lemma_tree_size_positive(s.last());
    } else if i < j {
        assert(s.subrange(i, j).drop_last() =~= s.drop_last().subrange(i, j - 1));
        assert(s.subrange(i, j).last() == s.last());
        lemma_trees_size_subrange(s.drop_last(), i, j - 1);
    } else {
        assert(s.subrange(i, j) =~= Seq::<ValueTree>::empty());
    }
}

/// A whole argument list: one expression and nothing after it but whitespace.
pub open spec fn whole_expr(src: Seq<char>, vs: Seq<ValueTree>) -> Result<ExprView, ExpressionError>
    decreases trees_size(vs), vs.len() + 2, 5nat,
{
    match additive(src, vs, 0) {
        Err(e) => Err(e),
        Ok((e, q)) => {
            let r = skip_ws(vs, q);
            if r != vs.len() {
                Err(error_at_token(ExpressionErrorReason::UNEXPECTED_TOKEN, token_at(vs, r), vs))
            } else {
                Ok(e)
            }
        },
    }
}

/// Sums and differences of products, from the left.
pub open spec fn additive(src: Seq<char>, vs: Seq<ValueTree>, p: int) -> Parsed
    decreases trees_size(vs), vs.len() + 1 - p, 4nat,
{
    if p < 0 || p > vs.len() {
        Err(error_at_token(ExpressionErrorReason::UNEXPECTED_EOF, None, vs))
    } else {
        match multiplicative(src, vs, p) {
            Err(e) => Err(e),
            Ok((left, q)) => if q < p || q > vs.len() {
                Err(error_at_token(ExpressionErrorReason::UNEXPECTED_EOF, None, vs))
            } else {
                additive_rest(src, vs, q, left)
            },
        }
    }
}

pub open spec fn additive_rest(src: Seq<char>, vs: Seq<ValueTree>, p: int, acc: ExprView) -> Parsed
    decreases trees_size(vs), vs.len() + 1 - p, 3nat,
{
    if p < 0 || p > vs.len() {
        Err(error_at_token(ExpressionErrorReason::UNEXPECTED_EOF, None, vs))
    } else {
        let q = skip_ws(vs, p);
        proof {
            lemma_skip_ws(vs, p);
        }
        match additive_op(vs, q) {
            None => Ok((acc, q)),
            Some(add) => match multiplicative(src, vs, q + 1) {
                Err(_) => Err(
                    error_at_token(ExpressionErrorReason::UNEXPECTED_EOF, token_at(vs, q), vs),
                ),
                Ok((right, q2)) => if q2 <= p || q2 > vs.len() {
                    Err(error_at_token(ExpressionErrorReason::UNEXPECTED_EOF, None, vs))
                } else {
                    additive_rest(
                        src,
                        vs,
                        q2,
                        if add {
                            ExprView::Add(Box::new(acc), Box::new(right))
                        } else {
                            ExprView::Subtract(Box::new(acc), Box::new(right))
                        },
                    )
                },
            },
        }
    }
}

/// Products and quotients of primaries, from the left.
pub open spec fn multiplicative(src: Seq<char>, vs: Seq<ValueTree>, p: int) -> Parsed
    decreases trees_size(vs), vs.len() + 1 - p, 2nat,
{
    if p < 0 || p > vs.len() {
        Err(error_at_token(ExpressionErrorReason::UNEXPECTED_EOF, None, vs))
    } else {
        match primary(src, vs, p) {
            Err(e) => Err(e),
            Ok((left, q)) => if q < p || q > vs.len() {
                Err(error_at_token(ExpressionErrorReason::UNEXPECTED_EOF, None, vs))
            } else {
                multiplicative_rest(src, vs, q, left)
            },
        }
    }
}

pub open spec fn multiplicative_rest(src: Seq<char>, vs: Seq<ValueTree>, p: int, acc: ExprView) -> Parsed
    decreases trees_size(vs), vs.len() + 1 - p, 1nat,
{
    if p < 0 || p > vs.len() {
        Err(error_at_token(ExpressionErrorReason::UNEXPECTED_EOF, None, vs))
    } else {
        let q = skip_ws(vs, p);
        proof {
            lemma_skip_ws(vs, p);
        }
        match multiplicative_op(vs, q) {
            None => Ok((acc, q)),
            Some(multiply) => match primary(src, vs, q + 1) {
                Err(_) => Err(
                    error_at_token(ExpressionErrorReason::UNEXPECTED_EOF, token_at(vs, q), vs),
                ),
                Ok((right, q2)) => if q2 <= p || q2 > vs.len() {
                    Err(error_at_token(ExpressionErrorReason::UNEXPECTED_EOF, None, vs))
                } else {
                    multiplicative_rest(
                        src,
                        vs,
                        q2,
                        if multiply {
                            ExprView::Multiply(Box::new(acc), Box::new(right))
                        } else {
                            ExprView::Divide(Box::new(acc), Box::new(right))
                        },
                    )
                },
            },
        }
    }
}

/// A number, a parenthesized expression, or a math function.
pub open spec fn primary(src: Seq<char>, vs: Seq<ValueTree>, p: int) -> Parsed
    decreases trees_size(vs), vs.len() + 1 - p, 0nat,
{
    if p < 0 || p > vs.len() {
        Err(error_at_token(ExpressionErrorReason::UNEXPECTED_EOF, None, vs))
    } else {
        let q = skip_ws(vs, p);
        proof {
            lemma_skip_ws(vs, p);
        }
        if q >= vs.len() {
            Err(error_at_token(ExpressionErrorReason::UNEXPECTED_EOF, None, vs))
        } else {
            proof {
                crate::resolver::lemma_tree_size_in(vs, q);
            }
            match vs[q] {
                ValueTree::Token(t) => if is_numeric_kind(t.kind) {
                    match numeric_of(src, t) {
                        Ok(ValueView::Number(l)) => Ok((ExprView::Literal(l), q + 1)),
                        _ => Err(error_at_token(ExpressionErrorReason::INVALID_NUMBER, Some(t), vs)),
                    }
                } else {
                    Err(error_at_token(ExpressionErrorReason::UNEXPECTED_TOKEN, Some(t), vs))
                },
                ValueTree::Block(opening, inner, closing) => if opening.kind == TokenKind::PAREN_OPEN
                    && closing is Some {
                    match whole_expr(src, inner) {
                        Ok(e) => Ok((ExprView::Group(Box::new(e)), q + 1)),
                        Err(e) => Err(e),
                    }
                } else {
                    Err(error_at_token(ExpressionErrorReason::UNEXPECTED_TOKEN, None, vs))
                },
                ValueTree::Call(name, args, closing) => match math_call(src, name, args, closing) {
                    Ok(e) => Ok((e, q + 1)),
                    Err(e) => Err(e),
                },
            }
        }
    }
}

/// `min` and `max` of two or more arguments and `clamp` of three, each a whole expression.
pub open spec fn math_call(
    src: Seq<char>,
    name: TokenData,
    args: Seq<ValueTree>,
    closing: Option<TokenData>,
) -> Result<ExprView, ExpressionError>
    decreases 1 + trees_size(args), 0int, 0nat,
{
    match value_text_of(src, name) {
        None => Err(error_at_token(ExpressionErrorReason::UNSUPPORTED_FUNCTION, Some(name), args)),
        Some(n) => {
            let pieces = split_args(args);
            proof {
                lemma_split_args(args);
            }
            if closing is None {
                Err(error_at_token(ExpressionErrorReason::UNEXPECTED_EOF, Some(name), args))
            } else if exists|k: int| 0 <= k < pieces.len() && is_blank(#[trigger] pieces[k]) {
                Err(error_at_token(ExpressionErrorReason::EMPTY_ARGUMENT, Some(name), args))
            } else if matches_lower(n, "min"@) && pieces.len() >= 2 {
                match arguments_of(src, pieces, args) {
                    Ok(es) => Ok(ExprView::Min(es)),
                    Err(e) => Err(e),
                }
            } else if matches_lower(n, "max"@) && pieces.len() >= 2 {
                match arguments_of(src, pieces, args) {
                    Ok(es) => Ok(ExprView::Max(es)),
                    Err(e) => Err(e),
                }
            } else if matches_lower(n, "clamp"@) && pieces.len() == 3 {
                match arguments_of(src, pieces, args) {
                    Ok(es) => Ok(
                        ExprView::Clamp(Box::new(es[0]), Box::new(es[1]), Box::new(es[2])),
                    ),
                    Err(e) => Err(e),
                }
            } else if matches_lower(n, "min"@) || matches_lower(n, "max"@) || matches_lower(
                n,
                "clamp"@,
            ) {
                Err(error_at_token(ExpressionErrorReason::INVALID_ARGUMENT_COUNT, Some(name), args))
            } else {
                Err(error_at_token(ExpressionErrorReason::UNSUPPORTED_FUNCTION, Some(name), args))
            }
        },
    }
}

/// Each piece parsed as a whole expression, in order; the first error stops it.
pub open spec fn arguments_of(
    src: Seq<char>,
    pieces: Seq<Seq<ValueTree>>,
    args: Seq<ValueTree>,
) -> Result<Seq<ExprView>, ExpressionError>
    decreases trees_size(args), args.len() + 3, pieces.len(),
{
    if pieces.len() == 0 {
        Ok(seq![])
    } else if !(trees_size(pieces.last()) <= trees_size(args) && pieces.last().len() <= args.len()) {
        Err(error_at_token(ExpressionErrorReason::UNEXPECTED_EOF, None, args))
    } else {
        match arguments_of(src, pieces.drop_last(), args) {
            Err(e) => Err(e),
            Ok(es) => match whole_expr(src, pieces.last()) {
                Err(e) => Err(e),
                Ok(e) => Ok(es.push(e)),
            },
        }
    }
}


// ---------------------------------------------------------------------------------------------
// Math expressions: the parser.
// ---------------------------------------------------------------------------------------------

pub proof fn lemma_cvs_model_subrange(s: Seq<ComponentValue>, a: int, b: int)
    requires
        0 <= a <= b <= s.len(),
    ensures
        cvs_model(s.subrange(a, b)) == cvs_model(s).subrange(a, b),
{
    let x = s.subrange(0, a);
    let y = s.subrange(a, b);
    let z = s.subrange(b, s.len() as int);
    assert(s =~= x + y + z);
    crate::resolver::lemma_cvs_model_concat(x + y, z);
    crate::resolver::lemma_cvs_model_concat(x, y);
    crate::resolver::lemma_cvs_model_len(x);
    crate::resolver::lemma_cvs_model_len(y);
    crate::resolver::lemma_cvs_model_len(z);
    assert(cvs_model(s).subrange(a, b) =~= cvs_model(y));
}

fn last_preserved(values: &[ComponentValue]) -> (r: Option<TokenData>)
    ensures
        r == last_token(cvs_model(values@)),
{
    let ghost model = cvs_model(values@);
    proof {
        crate::resolver::lemma_cvs_model_len(values@);
    }
    let mut k = values.len();
    assert(model.take(k as int) =~= model);
    while k > 0
        invariant
            k <= values@.len(),
            model == cvs_model(values@),
            model.len() == values@.len(),
            last_token(model) == last_token(model.take(k as int)),
        decreases k,
    {
        proof {
            crate::resolver::lemma_cvs_model_index(values@, (k - 1) as int);
            assert(model.take(k as int).drop_last() =~= model.take(k - 1));
            assert(model.take(k as int).last() == model[k - 1]);
        }
        match &values[k - 1] {
            ComponentValue::PRESERVED(t) => {
                return Some(*t);
            },
            _ => {},
        }
        k = k - 1;
    }
    assert(model.take(0) =~= Seq::<ValueTree>::empty());
    None
}

fn expression_error(
    values: &[ComponentValue],
    reason: ExpressionErrorReason,
    token: Option<TokenData>,
) -> (e: ExpressionError)
    ensures
        e == error_at_token(reason, token, cvs_model(values@)),
{
    let at = match token {
        Some(t) => Some(t),
        None => last_preserved(values),
    };
    match at {
        Some(t) => ExpressionError { reason, line: t.line, span: t.span },
        None => ExpressionError { reason, line: 0, span: LexerSpan(0, 0) },
    }
}

/// The pieces of `values` between top-level commas.
fn split_arguments(values: &[ComponentValue]) -> (r: Vec<&[ComponentValue]>)
    ensures
        r@.len() == split_args(cvs_model(values@)).len(),
        forall|i: int|
            0 <= i < r@.len() ==> cvs_model((#[trigger] r@[i])@) == split_args(cvs_model(values@))[i],
{
    let ghost model = cvs_model(values@);
    proof {
        crate::resolver::lemma_cvs_model_len(values@);
    }
    let mut pieces: Vec<&[ComponentValue]> = Vec::new();
    let mut start: usize = 0;
    let mut i: usize = 0;
    proof {
        assert(model.take(0) =~= Seq::<ValueTree>::empty());
        assert(model.subrange(0, 0) =~= Seq::<ValueTree>::empty());
    }
    while i < values.len()
        invariant
            start <= i <= values@.len(),
            model == cvs_model(values@),
            model.len() == values@.len(),
            split_args(model.take(i as int)).len() == pieces@.len() + 1,
            forall|k: int|
                0 <= k < pieces@.len() ==> cvs_model((#[trigger] pieces@[k])@) == split_args(
                    model.take(i as int),
                )[k],
            split_args(model.take(i as int)).last() == model.subrange(start as int, i as int),
        decreases values@.len() - i,
    {
        proof {
            crate::resolver::lemma_cvs_model_index(values@, i as int);
            assert(model.take(i + 1).drop_last() =~= model.take(i as int));
            assert(model.take(i + 1).last() == model[i as int]);
        }
        let ghost before = split_args(model.take(i as int));
        if is_comma_value_here(&values[i]) {
            let piece = vstd::slice::slice_subrange(values, start, i);
            proof {
                lemma_cvs_model_subrange(values@, start as int, i as int);
            }
            let ghost old_pieces = pieces@;
            pieces.push(piece);
            proof {
                let after = split_args(model.take(i + 1));
                assert(after == before.push(seq![]));
                assert forall|k: int| 0 <= k < pieces@.len() implies cvs_model((#[trigger] pieces@[k])@) == after[k] by {
                    if k < old_pieces.len() {
                        assert(pieces@[k] == old_pieces[k]);
                    } else {
                        assert(before[k] == before.last());
                    }
                }
                assert(model.subrange(i + 1, i + 1) =~= Seq::<ValueTree>::empty());
            }
            start = i + 1;
        } else {
            proof {
                let after = split_args(model.take(i + 1));
                assert(after == before.update(before.len() - 1, before.last().push(model[i as int])));
                assert(model.subrange(start as int, i + 1) =~= model.subrange(start as int, i as int).push(model[i as int]));
            }
        }
        i = i + 1;
    }
    let last = vstd::slice::slice_subrange(values, start, values.len());
    proof {
        lemma_cvs_model_subrange(values@, start as int, values@.len() as int);
        assert(model.take(i as int) =~= model);
    }
    let ghost old_pieces = pieces@;
    pieces.push(last);
    proof {
        assert forall|k: int| 0 <= k < pieces@.len() implies cvs_model((#[trigger] pieces@[k])@) == split_args(model)[k] by {
            if k < old_pieces.len() {
                assert(pieces@[k] == old_pieces[k]);
            }
        }
    }
    pieces
}

fn is_comma_value_here(value: &ComponentValue) -> (r: bool)
    ensures
        r == crate::resolver::is_comma_tree(cv_model(*value)),
{
    match value {
        ComponentValue::PRESERVED(t) => t.kind == TokenKind::COMMA,
        _ => false,
    }
}

/// Whether an argument holds nothing but whitespace.
fn is_empty_argument(values: &[ComponentValue]) -> (r: bool)
    ensures
        r == is_blank(cvs_model(values@)),
{
    let ghost model = cvs_model(values@);
    proof {
        crate::resolver::lemma_cvs_model_len(values@);
    }
    let mut k: usize = 0;
    while k < values.len()
        invariant
            k <= values@.len(),
            model == cvs_model(values@),
            model.len() == values@.len(),
            forall|m: int| 0 <= m < k ==> crate::resolver::is_whitespace_tree(#[trigger] model[m]),
        decreases values@.len() - k,
    {
        proof {
            crate::resolver::lemma_cvs_model_index(values@, k as int);
        }
        if !is_whitespace_component(&values[k]) {
            return false;
        }
        k = k + 1;
    }
    true
}

struct ExpressionParser<'a> {
    chars: &'a Vec<char>,
    values: &'a [ComponentValue],
    current: usize,
}

impl<'a> ExpressionParser<'a> {
    spec fn vs(&self) -> Seq<ValueTree> {
        cvs_model(self.values@)
    }

    spec fn same_input(&self, other: &Self) -> bool {
        &&& self.chars == other.chars
        &&& self.values == other.values
        &&& self.current <= self.values@.len()
    }

    fn peek_token(&self) -> (r: Option<TokenData>)
        ensures
            r == token_at(self.vs(), self.current as int),
    {
        proof {
            crate::resolver::lemma_cvs_model_len(self.values@);
        }
        if self.current < self.values.len() {
            proof {
                crate::resolver::lemma_cvs_model_index(self.values@, self.current as int);
            }
            match &self.values[self.current] {
                ComponentValue::PRESERVED(t) => Some(*t),
                _ => None,
            }
        } else {
            None
        }
    }

    fn at_whitespace(&self) -> (r: bool)
        ensures
            r == (self.current < self.values@.len() && crate::resolver::is_whitespace_tree(
                self.vs()[self.current as int],
            )),
    {
        if self.current < self.values.len() {
            proof {
                crate::resolver::lemma_cvs_model_index(self.values@, self.current as int);
            }
            is_whitespace_component(&self.values[self.current])
        } else {
            false
        }
    }

    fn skip_whitespace(&mut self)
        requires
            old(self).current <= old(self).values@.len(),
        ensures
            final(self).same_input(old(self)),
            final(self).current == skip_ws(old(self).vs(), old(self).current as int),
    {
        proof {
            crate::resolver::lemma_cvs_model_len(self.values@);
        }
        while self.at_whitespace()
            invariant
                self.same_input(old(self)),
                skip_ws(self.vs(), self.current as int) == skip_ws(old(self).vs(), old(self).current as int),
                self.vs().len() == self.values@.len(),
            decreases self.values@.len() - self.current,
        {
            let n = self.values.len();
            assert(self.current < n);
            self.current = self.current + 1;
        }
    }

    fn error(&self, reason: ExpressionErrorReason, token: Option<TokenData>) -> (e: ExpressionError)
        ensures
            e == error_at_token(reason, token, self.vs()),
    {
        expression_error(self.values, reason, token)
    }

    fn parse_additive(&mut self) -> (r: Result<Expr, ExpressionError>)
        requires
            old(self).current <= old(self).values@.len(),
        ensures
            final(self).same_input(old(self)),
            match r {
                Ok(e) => additive(old(self).chars@, old(self).vs(), old(self).current as int) == Ok::<(ExprView, int), ExpressionError>((expr_view(e), final(self).current as int)),
                Err(x) => additive(old(self).chars@, old(self).vs(), old(self).current as int) == Err::<(ExprView, int), ExpressionError>(x),
            },
        decreases trees_size(old(self).vs()), old(self).values@.len() + 1 - old(self).current, 4nat,
    {
        let ghost src = self.chars@;
        let ghost vs = self.vs();
        let ghost p0 = self.current as int;
        proof {
            crate::resolver::lemma_cvs_model_len(self.values@);
        }
        let mut expression = match self.parse_multiplicative() {
            Ok(e) => e,
            Err(x) => return Err(x),
        };
        let ghost target = additive(src, vs, p0);
        loop
            invariant_except_break
                target == additive_rest(src, vs, self.current as int, expr_view(expression)),
            invariant
                self.same_input(old(self)),
                src == self.chars@,
                vs == self.vs(),
                vs.len() == self.values@.len(),
                p0 == old(self).current,
                p0 <= self.current,
                target == additive(src, vs, p0),
            ensures
                target == Ok::<(ExprView, int), ExpressionError>((expr_view(expression), self.current as int)),
            decreases self.values@.len() - self.current,
        {
            let ghost p = self.current as int;
            let ghost acc = expr_view(expression);
            self.skip_whitespace();
            proof {
                lemma_skip_ws(vs, p);
            }
            let operator = self.peek_token();
            let add = match operator {
                Some(t) => if t.kind == TokenKind::PLUS || t.kind == TokenKind::DELIM('+') {
                    true
                } else if t.kind == TokenKind::HYPHEN || t.kind == TokenKind::DELIM('-') {
                    false
                } else {
                    break ;
                },
                None => break ,
            };
            let n = self.values.len();
            assert(self.current < n);
            self.current = self.current + 1;
            let right = match self.parse_multiplicative() {
                Ok(e) => e,
                Err(_) => return Err(self.error(ExpressionErrorReason::UNEXPECTED_EOF, operator)),
            };
            expression = if add {
                Expr::Add(Box::new(expression), Box::new(right))
            } else {
                Expr::Subtract(Box::new(expression), Box::new(right))
            };
        }
        Ok(expression)
    }

    fn parse_multiplicative(&mut self) -> (r: Result<Expr, ExpressionError>)
        requires
            old(self).current <= old(self).values@.len(),
        ensures
            final(self).same_input(old(self)),
            match r {
                Ok(e) => multiplicative(old(self).chars@, old(self).vs(), old(self).current as int) == Ok::<(ExprView, int), ExpressionError>((expr_view(e), final(self).current as int)),
                Err(x) => multiplicative(old(self).chars@, old(self).vs(), old(self).current as int) == Err::<(ExprView, int), ExpressionError>(x),
            },
            r is Ok ==> final(self).current > old(self).current,
        decreases trees_size(old(self).vs()), old(self).values@.len() + 1 - old(self).current, 2nat,
    {
        let ghost src = self.chars@;
        let ghost vs = self.vs();
        let ghost p0 = self.current as int;
        proof {
            crate::resolver::lemma_cvs_model_len(self.values@);
        }
        let mut expression = match self.parse_primary() {
            Ok(e) => e,
            Err(x) => return Err(x),
        };
        let ghost target = multiplicative(src, vs, p0);
        loop
            invariant_except_break
                target == multiplicative_rest(src, vs, self.current as int, expr_view(expression)),
            invariant
                self.same_input(old(self)),
                src == self.chars@,
                vs == self.vs(),
                vs.len() == self.values@.len(),
                p0 == old(self).current,
                p0 < self.current,
                target == multiplicative(src, vs, p0),
            ensures
                target == Ok::<(ExprView, int), ExpressionError>((expr_view(expression), self.current as int)),
            decreases self.values@.len() - self.current,
        {
            let ghost p = self.current as int;
            self.skip_whitespace();
            proof {
                lemma_skip_ws(vs, p);
            }
            let operator = self.peek_token();
            let multiply = match operator {
                Some(t) => if t.kind == TokenKind::STAR || t.kind == TokenKind::DELIM('*') {
                    true
                } else if t.kind == TokenKind::SLASH || t.kind == TokenKind::DELIM('/') {
                    false
                } else {
                    break ;
                },
                None => break ,
            };
            let n = self.values.len();
            assert(self.current < n);
            self.current = self.current + 1;
            let right = match self.parse_primary() {
                Ok(e) => e,
                Err(_) => return Err(self.error(ExpressionErrorReason::UNEXPECTED_EOF, operator)),
            };
            expression = if multiply {
                Expr::Multiply(Box::new(expression), Box::new(right))
            } else {
                Expr::Divide(Box::new(expression), Box::new(right))
            };
        }
        Ok(expression)
    }

    fn parse_primary(&mut self) -> (r: Result<Expr, ExpressionError>)
        requires
            old(self).current <= old(self).values@.len(),
        ensures
            final(self).same_input(old(self)),
            match r {
                Ok(e) => primary(old(self).chars@, old(self).vs(), old(self).current as int) == Ok::<(ExprView, int), ExpressionError>((expr_view(e), final(self).current as int)),
                Err(x) => primary(old(self).chars@, old(self).vs(), old(self).current as int) == Err::<(ExprView, int), ExpressionError>(x),
            },
            r is Ok ==> final(self).current > old(self).current,
        decreases trees_size(old(self).vs()), old(self).values@.len() + 1 - old(self).current, 0nat,
    {
        let ghost vs = self.vs();
        let ghost p = self.current as int;
        proof {
            crate::resolver::lemma_cvs_model_len(self.values@);
            lemma_skip_ws(vs, p);
        }
        self.skip_whitespace();
        if self.current >= self.values.len() {
            return Err(self.error(ExpressionErrorReason::UNEXPECTED_EOF, None));
        }
        let q = self.current;
        proof {
            crate::resolver::lemma_cvs_model_index(self.values@, q as int);
            crate::resolver::lemma_tree_size_in(vs, q as int);
        }
        let values = self.values;
        match &values[q] {
            ComponentValue::PRESERVED(token) => {
                if token.kind == TokenKind::NUMBER || token.kind == TokenKind::PERCENTAGE || token.kind
                    == TokenKind::DIMENSION {
                    self.current = q + 1;
                    match numeric_parts(self.chars, token) {
                        Some(literal) => Ok(Expr::Literal(literal)),
                        None => Err(self.error(ExpressionErrorReason::INVALID_NUMBER, Some(*token))),
                    }
                } else {
                    Err(self.error(ExpressionErrorReason::UNEXPECTED_TOKEN, Some(*token)))
                }
            },
            ComponentValue::SIMPLE_BLOCK(block) => {
                if block.opening.kind == TokenKind::PAREN_OPEN && block.closing.is_some() {
                    self.current = q + 1;
                    match parse_whole(self.chars, block.values.as_slice()) {
                        Ok(e) => Ok(Expr::Group(Box::new(e))),
                        Err(x) => Err(x),
                    }
                } else {
                    Err(self.error(ExpressionErrorReason::UNEXPECTED_TOKEN, None))
                }
            },
            ComponentValue::FUNCTION(function) => {
                self.current = q + 1;
                parse_math_function(self.chars, function)
            },
        }
    }
}

/// A whole argument list: one expression and nothing after it but whitespace.
fn parse_whole(chars: &Vec<char>, values: &[ComponentValue]) -> (r: Result<Expr, ExpressionError>)
    ensures
        match r {
            Ok(e) => whole_expr(chars@, cvs_model(values@)) == Ok::<ExprView, ExpressionError>(expr_view(e)),
            Err(x) => whole_expr(chars@, cvs_model(values@)) == Err::<ExprView, ExpressionError>(x),
        },
    decreases trees_size(cvs_model(values@)), values@.len() + 2, 5nat,
{
    let mut parser = ExpressionParser { chars, values, current: 0 };
    let expression = match parser.parse_additive() {
        Ok(e) => e,
        Err(x) => return Err(x),
    };
    proof {
        crate::resolver::lemma_cvs_model_len(values@);
    }
    parser.skip_whitespace();
    if parser.current != values.len() {
        return Err(parser.error(ExpressionErrorReason::UNEXPECTED_TOKEN, parser.peek_token()));
    }
    Ok(expression)
}

fn parse_math_function(chars: &Vec<char>, function: &Function) -> (r: Result<Expr, ExpressionError>)
    ensures
        match r {
            Ok(e) => math_call(chars@, function.name, cvs_model(function.values@), function.closing) == Ok::<ExprView, ExpressionError>(expr_view(e)),
            Err(x) => math_call(chars@, function.name, cvs_model(function.values@), function.closing) == Err::<ExprView, ExpressionError>(x),
        },
    decreases 1 + trees_size(cvs_model(function.values@)), 0int, 0nat,
{
    let ghost args = cvs_model(function.values@);
    let values = function.values.as_slice();
    let (i, j) = match text_range(chars, &function.name) {
        Some(range) => range,
        None => {
            return Err(
                expression_error(values, ExpressionErrorReason::UNSUPPORTED_FUNCTION, Some(function.name)),
            );
        },
    };
    if function.closing.is_none() {
        return Err(expression_error(values, ExpressionErrorReason::UNEXPECTED_EOF, Some(function.name)));
    }
    let arguments = split_arguments(values);
    let ghost pieces = split_args(args);
    proof {
        lemma_split_args(args);
    }
    let mut k: usize = 0;
    while k < arguments.len()
        invariant
            k <= arguments@.len() == pieces.len(),
            pieces == split_args(args),
            args == cvs_model(function.values@),
            function.closing is Some,
            i <= j <= chars@.len(),
            value_text_of(chars@, function.name) == Some(chars@.subrange(i as int, j as int)),
            forall|m: int| 0 <= m < arguments@.len() ==> cvs_model((#[trigger] arguments@[m])@) == pieces[m],
            forall|m: int| 0 <= m < k ==> !is_blank(#[trigger] pieces[m]),
        decreases arguments@.len() - k,
    {
        if is_empty_argument(arguments[k]) {
            assert(is_blank(pieces[k as int]));
            return Err(expression_error(values, ExpressionErrorReason::EMPTY_ARGUMENT, Some(function.name)));
        }
        k = k + 1;
    }
    let is_min = text_matches(chars, i, j, "min");
    let is_max = text_matches(chars, i, j, "max");
    let is_clamp = text_matches(chars, i, j, "clamp");
    let n = arguments.len();
    if (is_min || is_max) && n >= 2 {
        let parsed = match parse_arguments(chars, &arguments, Ghost(args)) {
            Ok(parsed) => parsed,
            Err(x) => return Err(x),
        };
        if is_min {
            Ok(Expr::Min(parsed))
        } else {
            Ok(Expr::Max(parsed))
        }
    } else if is_clamp && n == 3 {
        let mut parsed = match parse_arguments(chars, &arguments, Ghost(args)) {
            Ok(parsed) => parsed,
            Err(x) => return Err(x),
        };
        let ghost view = exprs_view(parsed@);
        proof {
            lemma_exprs_view_len(parsed@);
            lemma_exprs_view_index(parsed@, 0);
            lemma_exprs_view_index(parsed@, 1);
            lemma_exprs_view_index(parsed@, 2);
        }
        let max = parsed.pop().unwrap();
        let value = parsed.pop().unwrap();
        let min = parsed.pop().unwrap();
        Ok(Expr::Clamp { min: Box::new(min), value: Box::new(value), max: Box::new(max) })
    } else if is_min || is_max || is_clamp {
        Err(expression_error(values, ExpressionErrorReason::INVALID_ARGUMENT_COUNT, Some(function.name)))
    } else {
        Err(expression_error(values, ExpressionErrorReason::UNSUPPORTED_FUNCTION, Some(function.name)))
    }
}

/// Each argument parsed as a whole expression, in order.
fn parse_arguments(
    chars: &Vec<char>,
    arguments: &Vec<&[ComponentValue]>,
    Ghost(args): Ghost<Seq<ValueTree>>,
) -> (r: Result<Vec<Expr>, ExpressionError>)
    requires
        arguments@.len() == split_args(args).len(),
        forall|m: int| 0 <= m < arguments@.len() ==> cvs_model((#[trigger] arguments@[m])@) == split_args(args)[m],
    ensures
        match r {
            Ok(es) => arguments_of(chars@, split_args(args), args) == Ok::<Seq<ExprView>, ExpressionError>(exprs_view(es@)),
            Err(x) => arguments_of(chars@, split_args(args), args) == Err::<Seq<ExprView>, ExpressionError>(x),
        },
    decreases trees_size(args), args.len() + 3, split_args(args).len(),
{
    let ghost pieces = split_args(args);
    proof {
        lemma_split_args(args);
    }
    let mut parsed: Vec<Expr> = Vec::new();
    let mut k: usize = 0;
    proof {
        assert(pieces.take(0) =~= Seq::<Seq<ValueTree>>::empty());
    }
    while k < arguments.len()
        invariant
            k <= arguments@.len() == pieces.len(),
            pieces == split_args(args),
            forall|m: int| 0 <= m < arguments@.len() ==> cvs_model((#[trigger] arguments@[m])@) == pieces[m],
            forall|m: int|
                0 <= m < pieces.len() ==> #[trigger] trees_size(pieces[m]) <= trees_size(args)
                    && pieces[m].len() <= args.len(),
            arguments_of(chars@, pieces.take(k as int), args) == Ok::<Seq<ExprView>, ExpressionError>(exprs_view(parsed@)),
        decreases arguments@.len() - k,
    {
        proof {
            assert(pieces.take(k + 1).drop_last() =~= pieces.take(k as int));
            assert(pieces.take(k + 1).last() == pieces[k as int]);
            assert(trees_size(pieces[k as int]) <= trees_size(args));
            crate::resolver::lemma_cvs_model_len(arguments@[k as int]@);
        }
        match parse_whole(chars, arguments[k]) {
            Ok(e) => {
                let ghost before = parsed@;
                parsed.push(e);
                proof {
                    assert(parsed@.drop_last() =~= before);
                }
            },
            Err(x) => {
                proof {
                    lemma_arguments_error(chars@, pieces, args, (k + 1) as int);
                }
                return Err(x);
            },
        }
        k = k + 1;
    }
    proof {
        assert(pieces.take(k as int) =~= pieces);
    }
    Ok(parsed)
}

proof fn lemma_arguments_error(src: Seq<char>, pieces: Seq<Seq<ValueTree>>, args: Seq<ValueTree>, k: int)
    requires
        1 <= k <= pieces.len(),
        arguments_of(src, pieces.take(k), args) is Err,
        forall|m: int|
            0 <= m < pieces.len() ==> #[trigger] trees_size(pieces[m]) <= trees_size(args)
                && pieces[m].len() <= args.len(),
    ensures
        arguments_of(src, pieces, args) == arguments_of(src, pieces.take(k), args),
    decreases pieces.len() - k,
{
    if k < pieces.len() {
        assert(pieces.take(k + 1).drop_last() =~= pieces.take(k));
        assert(pieces.take(k + 1).last() == pieces[k]);
        lemma_arguments_error(src, pieces, args, k + 1);
    } else {
        assert(pieces.take(k) =~= pieces);
    }
}

/// Parses the arguments of a `calc()`-like function into an expression.
pub fn parse_calc_expression(source: &str, function: &Function) -> (r: Result<Expr, ExpressionError>)
    ensures
        match r {
            Ok(e) => whole_expr(source@, cvs_model(function.values@)) == Ok::<ExprView, ExpressionError>(expr_view(e)),
            Err(x) => whole_expr(source@, cvs_model(function.values@)) == Err::<ExprView, ExpressionError>(x),
        },
{
    let chars = source_chars(source);
    parse_whole(&chars, function.values.as_slice())
}

/// Substitutes the function's `var()` references, then parses it as `parse_calc_expression`
/// does. Variable errors come first.
pub fn parse_calc_expression_with_variables<R: VariableResolver>(
    source: &str,
    function: &Function,
    resolver: &R,
) -> (r: Result<Expr, ValueExpressionError>)
    ensures
        match r {
            Err(ValueExpressionError::VARIABLE(errors)) => {
                &&& resolution(source@, cvs_model(function.values@), resolver).1.len() > 0
                &&& errors_view(errors@) == resolution(source@, cvs_model(function.values@), resolver).1
            },
            Err(ValueExpressionError::EXPRESSION(x)) => {
                &&& resolution(source@, cvs_model(function.values@), resolver).1.len() == 0
                &&& whole_expr(source@, resolution(source@, cvs_model(function.values@), resolver).0) == Err::<ExprView, ExpressionError>(x)
            },
            Ok(e) => {
                &&& resolution(source@, cvs_model(function.values@), resolver).1.len() == 0
                &&& whole_expr(source@, resolution(source@, cvs_model(function.values@), resolver).0) == Ok::<ExprView, ExpressionError>(expr_view(e))
            },
        },
{
    let values = match resolve_variables(source, function.values.as_slice(), resolver) {
        ResolutionResult::Resolved(values) => values,
        ResolutionResult::Invalid(errors) => {
            return Err(ValueExpressionError::VARIABLE(errors));
        },
    };
    let resolved_function = Function { name: function.name, values, closing: function.closing };
    match parse_calc_expression(source, &resolved_function) {
        Ok(e) => Ok(e),
        Err(x) => Err(ValueExpressionError::EXPRESSION(x)),
    }
}

} // verus!

verus! {

/// Dividing by a plain number keeps the dividend's type: a length halved is a length.
pub proof fn law_dividing_by_a_number_keeps_the_type(a: ExprView, b: ExprView)
    requires
        type_of(a) is Ok,
        type_of(b) == Ok::<NumericTypeView, SemanticErrorReason>(NumericTypeView::Number),
    ensures
        type_of(ExprView::Divide(Box::new(a), Box::new(b))) == type_of(a),
{
}

/// Dividing by anything but a plain number (a percentage or a dimension) is invalid.
pub proof fn law_dividing_by_a_quantity_is_invalid(a: ExprView, b: ExprView)
    requires
        type_of(a) is Ok,
        type_of(b) matches Ok(t) && !(t is Number),
    ensures
        type_of(ExprView::Divide(Box::new(a), Box::new(b))) == Err::<
            NumericTypeView,
            SemanticErrorReason,
        >(SemanticErrorReason::INVALID_DIVISION),
{
}

/// Multiplying by a plain number, on either side, keeps the other factor's type.
pub proof fn law_scaling_by_a_number_keeps_the_type(a: ExprView, n: ExprView)
    requires
        type_of(a) is Ok,
        type_of(n) == Ok::<NumericTypeView, SemanticErrorReason>(NumericTypeView::Number),
    ensures
        type_of(ExprView::Multiply(Box::new(a), Box::new(n))) == type_of(a),
        type_of(ExprView::Multiply(Box::new(n), Box::new(a))) == type_of(a),
{
}

/// A product of two quantities, neither a plain number, is invalid.
pub proof fn law_product_of_two_quantities_is_invalid(a: ExprView, b: ExprView)
    requires
        type_of(a) matches Ok(t) && !(t is Number),
        type_of(b) matches Ok(u) && !(u is Number),
    ensures
        type_of(ExprView::Multiply(Box::new(a), Box::new(b))) == Err::<
            NumericTypeView,
            SemanticErrorReason,
        >(SemanticErrorReason::INVALID_MULTIPLICATION),
{
}

/// A sum or difference of two operands of one type has that type; of two types, it is an
/// incompatible addition.
pub proof fn law_sums_need_operands_of_one_type(a: ExprView, b: ExprView)
    requires
        type_of(a) is Ok,
        type_of(b) is Ok,
    ensures
        type_of(a) == type_of(b) ==> type_of(ExprView::Add(Box::new(a), Box::new(b))) == type_of(a)
            && type_of(ExprView::Subtract(Box::new(a), Box::new(b))) == type_of(a),
        type_of(a) != type_of(b) ==> type_of(ExprView::Add(Box::new(a), Box::new(b))) == Err::<
            NumericTypeView,
            SemanticErrorReason,
        >(SemanticErrorReason::INCOMPATIBLE_ADDITION) && type_of(
            ExprView::Subtract(Box::new(a), Box::new(b)),
        ) == Err::<NumericTypeView, SemanticErrorReason>(
            SemanticErrorReason::INCOMPATIBLE_ADDITION,
        ),
{
}

/// Parentheses do not change a type, and an error inside an operand is the error of the
/// whole operation.
pub proof fn law_groups_and_errors_pass_through(a: ExprView, b: ExprView)
    ensures
        type_of(ExprView::Group(Box::new(a))) == type_of(a),
        type_of(a) matches Err(x) ==> {
            &&& type_of(ExprView::Add(Box::new(a), Box::new(b))) == Err::<
                NumericTypeView,
                SemanticErrorReason,
            >(x)
            &&& type_of(ExprView::Multiply(Box::new(a), Box::new(b))) == Err::<
                NumericTypeView,
                SemanticErrorReason,
            >(x)
            &&& type_of(ExprView::Divide(Box::new(a), Box::new(b))) == Err::<
                NumericTypeView,
                SemanticErrorReason,
            >(x)
        },
{
}

/// A literal without a unit is a number, one with `%` a percentage, and one with a length
/// unit such as `px`, `em` or `rem` a length.
pub proof fn law_literal_types(l: LiteralView)
    ensures
        l.unit is None ==> type_of(ExprView::Literal(l)) == Ok::<
            NumericTypeView,
            SemanticErrorReason,
        >(NumericTypeView::Number),
        l.unit == Some("%"@) ==> type_of(ExprView::Literal(l)) == Ok::<
            NumericTypeView,
            SemanticErrorReason,
        >(NumericTypeView::Percentage),
        (l.unit == Some("px"@) || l.unit == Some("em"@) || l.unit == Some("rem"@)) ==> type_of(
            ExprView::Literal(l),
        ) == Ok::<NumericTypeView, SemanticErrorReason>(NumericTypeView::Dimension("length"@)),
{
    reveal_strlit("%");
    reveal_strlit("px");
    reveal_strlit("em");
    reveal_strlit("rem");
    reveal_strlit("length");
    assert("px"@ != "%"@) by {
        assert("px"@.len() != "%"@.len());
    }
    assert("em"@ != "%"@) by {
        assert("em"@.len() != "%"@.len());
    }
    assert("rem"@ != "%"@) by {
        assert("rem"@.len() != "%"@.len());
    }
    assert(matches_lower("px"@, "px"@));
    assert(matches_lower("em"@, "em"@));
    assert(matches_lower("rem"@, "rem"@));
}

} // verus!

verus! {

/// The word `auto` in any ASCII case.
pub open spec fn is_auto_word(n: Seq<char>) -> bool {
    &&& n.len() == 4
    &&& (n[0] == 'a' || n[0] == 'A')
    &&& (n[1] == 'u' || n[1] == 'U')
    &&& (n[2] == 't' || n[2] == 'T')
    &&& (n[3] == 'o' || n[3] == 'O')
}

proof fn lemma_auto_word_matches(n: Seq<char>)
    requires
        is_auto_word(n),
    ensures
        matches_lower(n, "auto"@),
{
    reveal_strlit("auto");
    assert forall|k: int| 0 <= k < n.len() implies lower_eq(#[trigger] n[k], "auto"@[k]) by {
        if k == 0 {
        } else if k == 1 {
        } else if k == 2 {
        } else {
        }
    }
}

/// The width and height grammar takes the keyword `auto`, in any ASCII case.
pub proof fn law_auto_fits_width_and_height(src: Seq<char>, t: TokenData)
    requires
        value_text_of(src, t) matches Some(n) && is_auto_word(n),
    ensures
        accepts(src, PropertyGrammar::LengthPercentageOrAuto, ValueView::Keyword(t)),
{
    lemma_auto_word_matches(value_text_of(src, t)->Some_0);
}

/// With the default grammars, `width: auto` and `height: auto` are valid declarations whose
/// value is the keyword.
pub proof fn law_width_and_height_take_auto(src: Seq<char>, declaration: Declaration, t: TokenData)
    requires
        value_text_of(src, declaration.name) == Some("width"@) || value_text_of(
            src,
            declaration.name,
        ) == Some("height"@),
        value_list_of(src, cvs_model(declaration.value@)) == Ok::<
            ValueView,
            ValueParseErrorReason,
        >(ValueView::Keyword(t)),
        value_text_of(src, t) matches Some(n) && is_auto_word(n),
    ensures
        analysis_of(src, declaration, default_grammars()) == Ok::<
            ValueView,
            PropertyErrorReason,
        >(ValueView::Keyword(t)),
{
    law_auto_fits_width_and_height(src, t);
    reveal_strlit("width");
    reveal_strlit("height");
    reveal_strlit("color");
    reveal_strlit("background-color");
    let g = default_grammars();
    let name = value_text_of(src, declaration.name)->Some_0;
    assert(!matches_lower(name, "color"@)) by {
        if name.len() == 5 {
            assert(!lower_eq(name[0], "color"@[0]));
        }
    }
    assert(!matches_lower(name, "background-color"@));
    if name == "width"@ {
        assert(matches_lower(name, "width"@));
        reveal_with_fuel(grammar_named, 4);
        assert(g.skip(1).skip(1)[0] == g[2]);
        assert(grammar_named(g, name) == Some(PropertyGrammar::LengthPercentageOrAuto));
    } else {
        assert(!matches_lower(name, "width"@)) by {
            assert(!lower_eq(name[0], "width"@[0]));
        }
        assert(matches_lower(name, "height"@));
        reveal_with_fuel(grammar_named, 5);
        assert(grammar_named(g, name) == Some(PropertyGrammar::LengthPercentageOrAuto));
    }
}

/// The width and height grammar takes any number with a unit, a unitless zero but not another
/// unitless number, and no keyword but `auto`.
pub proof fn law_width_grammar_takes_lengths(src: Seq<char>, l: LiteralView, t: TokenData)
    ensures
        l.unit is Some ==> accepts(src, PropertyGrammar::LengthPercentageOrAuto, ValueView::Number(l)),
        (l.unit is None && l.value == "0"@) ==> accepts(
            src,
            PropertyGrammar::LengthPercentageOrAuto,
            ValueView::Number(l),
        ),
        (l.unit is None && l.value == "1"@) ==> !accepts(
            src,
            PropertyGrammar::LengthPercentageOrAuto,
            ValueView::Number(l),
        ),
        (value_text_of(src, t) matches Some(n) && !matches_lower(n, "auto"@)) ==> !accepts(
            src,
            PropertyGrammar::LengthPercentageOrAuto,
            ValueView::Keyword(t),
        ),
{
    reveal_strlit("0");
    reveal_strlit("1");
    if l.unit is None && l.value == "0"@ {
        let r = l.value.skip(sign_len_spec(l.value));
        assert(r =~= "0"@);
        assert(r.len() == 1 && r[0] == '0');
        assert(digits_end(r, 1) == 1);
        assert(digits_end(r, 0) == 1);
        assert(significand_end(r, 0) == 1);
        assert(exponent_end(r, 1) == 1);
        assert(decimal_syntax(r));
        assert(zero_text(l.value));
    }
    if l.unit is None && l.value == "1"@ {
        let r = l.value.skip(sign_len_spec(l.value));
        assert(r =~= "1"@);
    }
}

} // verus!
