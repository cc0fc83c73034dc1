use vstd::prelude::*;
use vstd::set_lib::set_int_range;
use crate::chars::{byte_offset, lemma_byte_offset_mono, len_utf8, utf8_width};
use crate::parser::{
    copy_component_values, cv_model, cvs_model, ComponentValue, Declaration, Function,
    SimpleBlock, TokenData, ValueTree,
};
use crate::text::push_char;
use crate::token::TokenKind;
use crate::types::LexerSpan;

verus! {

// ---------------------------------------------------------------------------------------------
// Sizes of value trees, the structural half of the resolution measure.
// ---------------------------------------------------------------------------------------------

pub open spec fn tree_size(v: ValueTree) -> nat
    decreases v, 0nat,
{
    match v {
        ValueTree::Token(_) => 1,
        ValueTree::Block(_, inner, _) => 1 + trees_size(inner),
        ValueTree::Call(_, inner, _) => 1 + trees_size(inner),
    }
}

pub open spec fn trees_size(s: Seq<ValueTree>) -> nat
    decreases s, 1nat,
{
    if s.len() == 0 {
        0
    } else {
        trees_size(s.drop_last()) + tree_size(s.last())
    }
}

pub proof fn lemma_tree_size_positive(v: ValueTree)
    ensures
        tree_size(v) >= 1,
{
}

pub proof fn lemma_tree_size_in(s: Seq<ValueTree>, i: int)
    requires
        0 <= i < s.len(),
    ensures
        tree_size(s[i]) <= trees_size(s),
    decreases s.len(),
{
    if i < s.len() - 1 {
        lemma_tree_size_in(s.drop_last(), i);
        assert(s.drop_last()[i] == s[i]);
    }
}

pub proof fn lemma_cvs_model_index(s: Seq<ComponentValue>, i: int)
    requires
        0 <= i < s.len(),
    ensures
        cvs_model(s).len() == s.len(),
        cvs_model(s)[i] == cv_model(s[i]),
    decreases s.len(),
{
    lemma_cvs_model_len(s);
    if i < s.len() - 1 {
        lemma_cvs_model_index(s.drop_last(), i);
    }
}

pub proof fn lemma_cvs_model_len(s: Seq<ComponentValue>)
    ensures
        cvs_model(s).len() == s.len(),
    decreases s.len(),
{
    if s.len() > 0 {
        lemma_cvs_model_len(s.drop_last());
    }
}

pub proof fn lemma_cvs_model_concat(a: Seq<ComponentValue>, b: Seq<ComponentValue>)
    ensures
        cvs_model(a + b) == cvs_model(a) + cvs_model(b),
    decreases b.len(),
{
    if b.len() == 0 {
        assert(a + b =~= a);
        assert(cvs_model(a) + cvs_model(b) =~= cvs_model(a));
    } else {
        lemma_cvs_model_concat(a, b.drop_last());
        assert((a + b).drop_last() =~= a + b.drop_last());
        assert((a + b).last() == b.last());
        assert(cvs_model(a) + cvs_model(b) =~= (cvs_model(a) + cvs_model(b.drop_last())).push(
            cv_model(b.last()),
        ));
    }
}

// ---------------------------------------------------------------------------------------------
// The text of a token: spans are byte offsets into the source.
// ---------------------------------------------------------------------------------------------

/// The index of the code point of `src` that starts at byte `b` (`src.len()` for the end).
pub open spec fn char_at_byte(src: Seq<char>, b: int) -> Option<int> {
    if exists|i: int| 0 <= i <= src.len() && byte_offset(src, i) == b {
        Some(choose|i: int| 0 <= i <= src.len() && byte_offset(src, i) == b)
    } else {
        None
    }
}

/// The source text of a token: from the start of its span to the end of its last code point;
/// a function token ends before its `(`. `None` where a span does not fall on code points.
pub open spec fn token_text_of(src: Seq<char>, t: TokenData) -> Option<Seq<char>> {
    match char_at_byte(src, t.span.0 as int) {
        None => None,
        Some(i) => match char_at_byte(src, t.span.1 as int) {
            None => None,
            Some(k) => {
                if t.kind != TokenKind::FUNCTION && k >= src.len() {
                    None
                } else {
                    let j = if t.kind == TokenKind::FUNCTION {
                        k
                    } else {
                        k + 1
                    };
                    if i <= j {
                        Some(src.subrange(i, j))
                    } else {
                        None
                    }
                }
            },
        },
    }
}

proof fn lemma_byte_offset_injective(src: Seq<char>, i: int, j: int)
    requires
        0 <= i,
        0 <= j,
        byte_offset(src, i) == byte_offset(src, j),
    ensures
        i == j,
{
    if i < j {
        lemma_byte_offset_mono(src, i, j);
    } else if j < i {
        lemma_byte_offset_mono(src, j, i);
    }
}

proof fn lemma_char_at_byte(src: Seq<char>, b: int, i: int)
    requires
        0 <= i <= src.len(),
        byte_offset(src, i) == b,
    ensures
        char_at_byte(src, b) == Some(i),
{
    let k = choose|k: int| 0 <= k <= src.len() && byte_offset(src, k) == b;
    lemma_byte_offset_injective(src, i, k);
}

/// `var`, ignoring ASCII case.
pub open spec fn is_var_text(t: Seq<char>) -> bool {
    &&& t.len() == 3
    &&& (t[0] == 'v' || t[0] == 'V')
    &&& (t[1] == 'a' || t[1] == 'A')
    &&& (t[2] == 'r' || t[2] == 'R')
}

/// Whether a function token names `var`.
pub open spec fn names_var(src: Seq<char>, name: TokenData) -> bool {
    token_text_of(src, name) matches Some(t) && is_var_text(t)
}

// ---------------------------------------------------------------------------------------------
// The arguments of `var()`.
// ---------------------------------------------------------------------------------------------

pub open spec fn is_whitespace_tree(v: ValueTree) -> bool {
    v matches ValueTree::Token(t) && t.kind == TokenKind::WHITESPACE
}

pub open spec fn is_comma_tree(v: ValueTree) -> bool {
    v matches ValueTree::Token(t) && t.kind == TokenKind::COMMA
}

/// The values of `s` that are not whitespace, in order.
pub open spec fn significant(s: Seq<ValueTree>) -> Seq<ValueTree>
    decreases s.len(),
{
    if s.len() == 0 {
        seq![]
    } else if is_whitespace_tree(s.last()) {
        significant(s.drop_last())
    } else {
        significant(s.drop_last()).push(s.last())
    }
}

/// Whether `k` is the index of the first comma of `s`.
pub open spec fn is_first_comma(s: Seq<ValueTree>, k: int) -> bool {
    &&& 0 <= k < s.len()
    &&& is_comma_tree(s[k])
    &&& forall|j: int| 0 <= j < k ==> !is_comma_tree(#[trigger] s[j])
}

/// The index of the first comma of `s`, or `s.len()` where it has none.
pub open spec fn first_comma(s: Seq<ValueTree>) -> int {
    if exists|k: int| is_first_comma(s, k) {
        choose|k: int| is_first_comma(s, k)
    } else {
        s.len() as int
    }
}

proof fn lemma_first_comma(s: Seq<ValueTree>, k: int)
    requires
        is_first_comma(s, k),
    ensures
        first_comma(s) == k,
{
    let c = choose|c: int| is_first_comma(s, c);
    if c < k {
        assert(!is_comma_tree(s[c]));
    } else if k < c {
        assert(!is_comma_tree(s[k]));
    }
}

/// The name that the first argument of `var()` gives: a single identifier, whitespace around it
/// allowed, whose text starts with `--`.
pub open spec fn variable_name_of(src: Seq<char>, s: Seq<ValueTree>) -> Option<Seq<char>> {
    let sig = significant(s);
    if sig.len() == 1 && (sig[0] matches ValueTree::Token(t) && t.kind == TokenKind::IDENT) {
        match token_text_of(src, sig[0]->Token_0) {
            Some(n) => if n.len() >= 2 && n[0] == '-' && n[1] == '-' {
                Some(n)
            } else {
                None
            },
            None => None,
        }
    } else {
        None
    }
}

// ---------------------------------------------------------------------------------------------
// The names a source can hold; their number bounds how deep substitution goes.
// ---------------------------------------------------------------------------------------------

/// The runs of `s` that end at or before `m`.
pub open spec fn runs_upto(s: Seq<char>, m: int) -> Set<Seq<char>> {
    Set::new(|t: Seq<char>| exists|i: int, j: int| 0 <= i <= j <= m && t == s.subrange(i, j))
}

/// The runs of `s`: every name that a token of `s` can spell.
pub open spec fn runs(s: Seq<char>) -> Set<Seq<char>> {
    runs_upto(s, s.len() as int)
}

/// How many names of `src` are not yet being substituted.
pub open spec fn fresh_names(src: Seq<char>, active: Set<Seq<char>>) -> nat {
    runs(src).difference(active).len()
}

proof fn lemma_runs_finite(s: Seq<char>, m: int)
    requires
        0 <= m <= s.len(),
    ensures
        runs_upto(s, m).finite(),
    decreases m,
{
    if m == 0 {
        assert forall|t: Seq<char>| runs_upto(s, 0).contains(t) <==> t == Seq::<char>::empty() by {
            if runs_upto(s, 0).contains(t) {
                let (i, j) = choose|i: int, j: int| 0 <= i <= j <= 0 && t == s.subrange(i, j);
                assert(t =~= Seq::<char>::empty());
            }
            if t == Seq::<char>::empty() {
                assert(t =~= s.subrange(0, 0));
            }
        }
        assert(runs_upto(s, 0) =~= Set::<Seq<char>>::empty().insert(Seq::<char>::empty()));
    } else {
        lemma_runs_finite(s, m - 1);
        let ends = |i: int| s.subrange(i, m);
        vstd::set_lib::lemma_int_range(0, m + 1);
        set_int_range(0, m + 1).lemma_map_finite(ends);
        let rhs = runs_upto(s, m - 1).union(set_int_range(0, m + 1).map(ends));
        assert forall|t: Seq<char>| runs_upto(s, m).contains(t) <==> rhs.contains(t) by {
            if runs_upto(s, m).contains(t) {
                let (i, j) = choose|i: int, j: int| 0 <= i <= j <= m && t == s.subrange(i, j);
                if j < m {
                    assert(runs_upto(s, m - 1).contains(s.subrange(i, j)));
                } else {
                    assert(set_int_range(0, m + 1).contains(i));
                    assert(set_int_range(0, m + 1).map(ends).contains(ends(i)));
                }
            }
            if runs_upto(s, m - 1).contains(t) {
                let (i, j) = choose|i: int, j: int| 0 <= i <= j <= m - 1 && t == s.subrange(i, j);
                assert(runs_upto(s, m).contains(s.subrange(i, j)));
            }
            if set_int_range(0, m + 1).map(ends).contains(t) {
                let i = choose|i: int| #[trigger] set_int_range(0, m + 1).contains(i) && t == ends(i);
                assert(runs_upto(s, m).contains(s.subrange(i, m)));
            }
        }
        assert(runs_upto(s, m) =~= rhs);
    }
}

pub proof fn lemma_fresh_insert(src: Seq<char>, active: Set<Seq<char>>, n: Seq<char>)
    requires
        runs(src).contains(n),
        !active.contains(n),
    ensures
        fresh_names(src, active.insert(n)) < fresh_names(src, active),
{
    lemma_runs_finite(src, src.len() as int);
    let d = runs(src).difference(active);
    assert(runs(src).difference(active.insert(n)) =~= d.remove(n));
    assert(d.contains(n));
}

proof fn lemma_text_is_run(src: Seq<char>, t: TokenData)
    ensures
        token_text_of(src, t) matches Some(n) ==> runs(src).contains(n),
{
    if let Some(n) = token_text_of(src, t) {
        let i = char_at_byte(src, t.span.0 as int)->Some_0;
        let k = char_at_byte(src, t.span.1 as int)->Some_0;
        let j = if t.kind == TokenKind::FUNCTION {
            k
        } else {
            k + 1
        };
        assert(runs(src).contains(src.subrange(i, j)));
    }
}

// ---------------------------------------------------------------------------------------------
// What resolution gives.
// ---------------------------------------------------------------------------------------------

#[allow(non_camel_case_types)]
#[derive(Debug, Clone, PartialEq, Eq)]
pub enum VariableResolutionErrorReason {
    INVALID_FUNCTION,
    INVALID_FALLBACK,
    INVALID_NAME,
    MISSING_VARIABLE,
    CYCLE,
}

#[derive(Debug, Clone, PartialEq, Eq)]
pub struct VariableResolutionError {
    pub reason: VariableResolutionErrorReason,
    pub line: usize,
    pub span: LexerSpan,
    pub variable: Option<String>,
}

#[derive(Debug, Clone, PartialEq, Eq)]
pub enum ResolutionResult {
    Resolved(Vec<ComponentValue>),
    Invalid(Vec<VariableResolutionError>),
}

/// A resolution error as a mathematical value.
pub struct ResolutionErrorView {
    pub reason: VariableResolutionErrorReason,
    pub line: usize,
    pub span: LexerSpan,
    pub variable: Option<Seq<char>>,
}

pub open spec fn error_view(e: VariableResolutionError) -> ResolutionErrorView {
    ResolutionErrorView {
        reason: e.reason,
        line: e.line,
        span: e.span,
        variable: match e.variable {
            Some(v) => Some(v@),
            None => None,
        },
    }
}

pub open spec fn errors_view(s: Seq<VariableResolutionError>) -> Seq<ResolutionErrorView> {
    s.map_values(|e: VariableResolutionError| error_view(e))
}

/// The error reported at the name token of a `var()` function.
pub open spec fn error_at(
    reason: VariableResolutionErrorReason,
    t: TokenData,
    variable: Option<Seq<char>>,
) -> ResolutionErrorView {
    ResolutionErrorView { reason, line: t.line, span: t.span, variable }
}

/// Where custom properties are looked up.
pub trait VariableResolver {
    /// The value bound to `name`, if any.
    spec fn binding(&self, name: Seq<char>) -> Option<Seq<ValueTree>>;

    /// Looks up a custom-property value in the caller-provided environment.
    fn resolve(&self, name: &str) -> (r: Option<&[ComponentValue]>)
        ensures
            match r {
                Some(v) => self.binding(name@) == Some(cvs_model(v@)),
                None => self.binding(name@) is None,
            },
    ;
}

/// Resolves the `var()` functions of `s`, the names in `active` being substituted already:
/// the resolved values, and the errors in the order met.
pub open spec fn resolve_trees<R: VariableResolver>(
    src: Seq<char>,
    s: Seq<ValueTree>,
    env: &R,
    active: Set<Seq<char>>,
) -> (Seq<ValueTree>, Seq<ResolutionErrorView>)
    decreases fresh_names(src, active), trees_size(s), 1nat,
{
    if s.len() == 0 {
        (seq![], seq![])
    } else {
        proof {
            lemma_tree_size_positive(s.last());
        }
        let a = resolve_trees(src, s.drop_last(), env, active);
        let b = resolve_tree(src, s.last(), env, active);
        (a.0 + b.0, a.1 + b.1)
    }
}

/// Resolves one value. A `var()` function is replaced by the resolved value of its custom
/// property, else by its resolved fallback, else by nothing, with an error.
pub open spec fn resolve_tree<R: VariableResolver>(
    src: Seq<char>,
    v: ValueTree,
    env: &R,
    active: Set<Seq<char>>,
) -> (Seq<ValueTree>, Seq<ResolutionErrorView>)
    decreases fresh_names(src, active), tree_size(v), 0nat,
{
    match v {
        ValueTree::Token(_) => (seq![v], seq![]),
        ValueTree::Block(opening, inner, closing) => {
            let r = resolve_trees(src, inner, env, active);
            (seq![ValueTree::Block(opening, r.0, closing)], r.1)
        },
        ValueTree::Call(name, inner, closing) => {
            if !names_var(src, name) {
                let r = resolve_trees(src, inner, env, active);
                (seq![ValueTree::Call(name, r.0, closing)], r.1)
            } else if closing is None {
                (seq![], seq![error_at(VariableResolutionErrorReason::INVALID_FUNCTION, name, None)])
            } else {
                let comma = first_comma(inner);
                match variable_name_of(src, inner.take(comma)) {
                    None => (
                        seq![],
                        seq![error_at(VariableResolutionErrorReason::INVALID_NAME, name, None)],
                    ),
                    Some(n) => {
                        if active.contains(n) {
                            (
                                seq![],
                                seq![error_at(VariableResolutionErrorReason::CYCLE, name, Some(n))],
                            )
                        } else {
                            proof {
                                lemma_name_is_run(src, inner.take(comma));
                                lemma_fresh_insert(src, active, n);
                            }
                            match env.binding(n) {
                                Some(bound) => resolve_trees(src, bound, env, active.insert(n)),
                                None => if comma < inner.len() {
                                    resolve_trees(src, inner.skip(comma + 1), env, active.insert(n))
                                } else {
                                    (
                                        seq![],
                                        seq![
                                            error_at(
                                                VariableResolutionErrorReason::MISSING_VARIABLE,
                                                name,
                                                Some(n),
                                            ),
                                        ],
                                    )
                                },
                            }
                        }
                    },
                }
            }
        },
    }
}

/// The resolution of `values` against `env`, nothing being substituted yet.
pub open spec fn resolution<R: VariableResolver>(
    src: Seq<char>,
    values: Seq<ValueTree>,
    env: &R,
) -> (Seq<ValueTree>, Seq<ResolutionErrorView>) {
    resolve_trees(src, values, env, Set::empty())
}

pub proof fn lemma_name_is_run(src: Seq<char>, s: Seq<ValueTree>)
    ensures
        variable_name_of(src, s) matches Some(n) ==> runs(src).contains(n),
{
    let sig = significant(s);
    if sig.len() == 1 && (sig[0] matches ValueTree::Token(t) && t.kind == TokenKind::IDENT) {
        lemma_text_is_run(src, sig[0]->Token_0);
    }
}

// ---------------------------------------------------------------------------------------------
// A custom-property environment.
// ---------------------------------------------------------------------------------------------

/// The first binding of `name` among `entries`.
pub open spec fn entry_binding(entries: Seq<(Seq<char>, Seq<ValueTree>)>, name: Seq<char>) -> Option<
    Seq<ValueTree>,
>
    decreases entries.len(),
{
    if entries.len() == 0 {
        None
    } else if entries[0].0 == name {
        Some(entries[0].1)
    } else {
        entry_binding(entries.drop_first(), name)
    }
}

/// The entries of a property table as mathematical values.
pub open spec fn entries_view(entries: Seq<(String, Vec<ComponentValue>)>) -> Seq<
    (Seq<char>, Seq<ValueTree>),
> {
    entries.map_values(|e: (String, Vec<ComponentValue>)| (e.0@, cvs_model(e.1@)))
}

proof fn lemma_entry_binding_update(
    entries: Seq<(Seq<char>, Seq<ValueTree>)>,
    k: int,
    value: Seq<ValueTree>,
    name: Seq<char>,
)
    requires
        0 <= k < entries.len(),
        forall|j: int| 0 <= j < k ==> (#[trigger] entries[j]).0 != entries[k].0,
    ensures
        entry_binding(entries.update(k, (entries[k].0, value)), name) == if name == entries[k].0 {
            Some(value)
        } else {
            entry_binding(entries, name)
        },
    decreases entries.len(),
{
    let updated = entries.update(k, (entries[k].0, value));
    if k == 0 {
        assert(updated.drop_first() =~= entries.drop_first());
    } else {
        assert(updated[0] == entries[0]);
        assert(entries[0].0 != entries[k].0);
        assert forall|j: int| 0 <= j < k - 1 implies (#[trigger] entries.drop_first()[j]).0
            != entries.drop_first()[k - 1].0 by {
            assert(entries.drop_first()[j] == entries[j + 1]);
        }
        lemma_entry_binding_update(entries.drop_first(), k - 1, value, name);
        assert(updated.drop_first() =~= entries.drop_first().update(
            k - 1,
            (entries[k].0, value),
        ));
    }
}

proof fn lemma_entry_binding_push(
    entries: Seq<(Seq<char>, Seq<ValueTree>)>,
    entry: (Seq<char>, Seq<ValueTree>),
    name: Seq<char>,
)
    requires
        forall|j: int| 0 <= j < entries.len() ==> (#[trigger] entries[j]).0 != entry.0,
    ensures
        entry_binding(entries.push(entry), name) == if name == entry.0 {
            Some(entry.1)
        } else {
            entry_binding(entries, name)
        },
    decreases entries.len(),
{
    if entries.len() > 0 {
        assert forall|j: int| 0 <= j < entries.drop_first().len() implies (
        #[trigger] entries.drop_first()[j]).0 != entry.0 by {
            assert(entries.drop_first()[j] == entries[j + 1]);
        }
        lemma_entry_binding_push(entries.drop_first(), entry, name);
        assert(entries.push(entry).drop_first() =~= entries.drop_first().push(entry));
        assert(entries.push(entry)[0] == entries[0]);
        assert(entries[0].0 != entry.0);
    } else {
        assert(entries.push(entry).drop_first() =~= Seq::<(Seq<char>, Seq<ValueTree>)>::empty());
        assert(entries.push(entry)[0] == entry);
        assert(entry_binding(Seq::<(Seq<char>, Seq<ValueTree>)>::empty(), name) is None);
    }
}

/// A caller-managed custom-property environment for one inheritance context.
///
/// A child starts with an inherited snapshot of its parent's custom
/// properties. A locally selected declaration replaces the inherited value.
/// Cascade selection and inheritance decisions remain the caller's job.
#[derive(Debug, PartialEq, Eq)]
pub struct CustomPropertyEnvironment {
    parent: Option<Box<CustomPropertyEnvironment>>,
    local: Vec<(String, Vec<ComponentValue>)>,
}

impl CustomPropertyEnvironment {
    /// The value that the environment binds to `name`: its own, else its parent's.
    pub closed spec fn bound(&self, name: Seq<char>) -> Option<Seq<ValueTree>>
        decreases self,
    {
        match entry_binding(entries_view(self.local@), name) {
            Some(v) => Some(v),
            None => match self.parent {
                Some(p) => p.bound(name),
                None => None,
            },
        }
    }

    pub fn new() -> (env: Self)
        ensures
            forall|name: Seq<char>| #[trigger] env.bound(name) is None,
    {
        let env = Self { parent: None, local: Vec::new() };
        assert forall|name: Seq<char>| #[trigger] env.bound(name) is None by {
            assert(entries_view(env.local@).len() == 0);
        }
        env
    }

    pub fn child_of(parent: &Self) -> (env: Self)
        ensures
            forall|name: Seq<char>| #[trigger] env.bound(name) == parent.bound(name),
    {
        let inherited = parent.copy();
        let env = Self { parent: Some(Box::new(inherited)), local: Vec::new() };
        assert forall|name: Seq<char>| #[trigger] env.bound(name) == parent.bound(name) by {
            assert(entries_view(env.local@).len() == 0);
            assert(entry_binding(entries_view(env.local@), name) is None);
            assert(inherited.bound(name) == parent.bound(name));
        }
        env
    }

    /// Binds `name` in this environment, replacing a local or inherited value.
    pub fn set(&mut self, name: &str, values: Vec<ComponentValue>)
        ensures
            final(self).bound(name@) == Some(cvs_model(values@)),
            forall|other: Seq<char>|
                other != name@ ==> #[trigger] final(self).bound(other) == old(self).bound(other),
    {
        let key = name.to_owned();
        let ghost before = entries_view(self.local@);
        let ghost model = cvs_model(values@);
        let mut k: usize = 0;
        while k < self.local.len()
            invariant
                k <= self.local@.len(),
                *self == *old(self),
                before == entries_view(self.local@),
                model == cvs_model(values@),
                key@ == name@,
                forall|j: int| 0 <= j < k ==> (#[trigger] before[j]).0 != key@,
            decreases self.local@.len() - k,
        {
            if self.local[k].0 == key {
                let ghost found = self.local@[k as int];
                self.local.set(k, (key, values));
                proof {
                    assert(entries_view(self.local@) =~= before.update(k as int, (before[k as int].0, model)));
                    assert forall|other: Seq<char>|
                        #[trigger] entry_binding(entries_view(self.local@), other) == if other == name@ {
                            Some(model)
                        } else {
                            entry_binding(before, other)
                        } by {
                        lemma_entry_binding_update(before, k as int, model, other);
                    }
                }
                return;
            }
            k = k + 1;
        }
        self.local.push((key, values));
        proof {
            assert(entries_view(self.local@) =~= before.push((name@, model)));
            assert forall|other: Seq<char>|
                #[trigger] entry_binding(entries_view(self.local@), other) == if other == name@ {
                    Some(model)
                } else {
                    entry_binding(before, other)
                } by {
                lemma_entry_binding_push(before, (name@, model), other);
            }
        }
    }

    /// A copy that binds the same values.
    pub fn copy(&self) -> (env: Self)
        ensures
            forall|name: Seq<char>| #[trigger] env.bound(name) == self.bound(name),
        decreases self,
    {
        let parent = match &self.parent {
            Some(p) => Some(Box::new(p.copy())),
            None => None,
        };
        let mut local: Vec<(String, Vec<ComponentValue>)> = Vec::new();
        let mut k: usize = 0;
        while k < self.local.len()
            invariant
                k <= self.local@.len(),
                entries_view(local@) == entries_view(self.local@).take(k as int),
            decreases self.local@.len() - k,
        {
            let entry = &self.local[k];
            let ghost before = local@;
            local.push((entry.0.clone(), copy_component_values(&entry.1)));
            proof {
                assert(entries_view(local@) =~= entries_view(before).push(entries_view(self.local@)[k as int]));
                assert(entries_view(self.local@).take(k + 1) =~= entries_view(self.local@).take(k as int).push(entries_view(self.local@)[k as int]));
            }
            k = k + 1;
        }
        proof {
            assert(entries_view(self.local@).take(k as int) =~= entries_view(self.local@));
        }
        let ghost inherited = parent;
        let env = Self { parent, local };
        assert forall|name: Seq<char>| #[trigger] env.bound(name) == self.bound(name) by {
            assert(entries_view(env.local@) == entries_view(self.local@));
            match self.parent {
                Some(p) => {
                    assert(inherited.unwrap().bound(name) == p.bound(name));
                },
                None => {},
            }
        }
        env
    }

    /// Looks a name up here, then in the ancestors.
    fn lookup(&self, name: &str) -> (r: Option<&[ComponentValue]>)
        ensures
            match r {
                Some(v) => self.bound(name@) == Some(cvs_model(v@)),
                None => self.bound(name@) is None,
            },
        decreases self,
    {
        let key = name.to_owned();
        let ghost view = entries_view(self.local@);
        let mut k: usize = 0;
        assert(view.skip(0) =~= view);
        while k < self.local.len()
            invariant
                k <= self.local@.len(),
                view == entries_view(self.local@),
                key@ == name@,
                entry_binding(view, name@) == entry_binding(view.skip(k as int), name@),
            decreases self.local@.len() - k,
        {
            proof {
                assert(view.skip(k as int).drop_first() =~= view.skip(k + 1));
                assert(view.skip(k as int)[0] == view[k as int]);
            }
            if self.local[k].0 == key {
                return Some(self.local[k].1.as_slice());
            }
            k = k + 1;
        }
        proof {
            assert(view.skip(k as int).len() == 0);
        }
        match &self.parent {
            Some(p) => p.lookup(name),
            None => None,
        }
    }
}

impl Clone for CustomPropertyEnvironment {
    fn clone(&self) -> (env: Self)
        ensures
            forall|name: Seq<char>| #[trigger] env.bound(name) == self.bound(name),
    {
        self.copy()
    }
}

impl Default for CustomPropertyEnvironment {
    fn default() -> (env: Self)
        ensures
            forall|name: Seq<char>| #[trigger] env.bound(name) is None,
    {
        Self::new()
    }
}

impl VariableResolver for CustomPropertyEnvironment {
    open spec fn binding(&self, name: Seq<char>) -> Option<Seq<ValueTree>> {
        self.bound(name)
    }

    fn resolve(&self, name: &str) -> (r: Option<&[ComponentValue]>) {
        self.lookup(name)
    }
}

// ---------------------------------------------------------------------------------------------
// Resolution.
// ---------------------------------------------------------------------------------------------

/// The names being substituted.
pub open spec fn names(active: Seq<String>) -> Set<Seq<char>> {
    Set::new(|n: Seq<char>| exists|k: int| 0 <= k < active.len() && (#[trigger] active[k])@ == n)
}

proof fn lemma_names_push(active: Seq<String>, name: String)
    ensures
        names(active.push(name)) == names(active).insert(name@),
{
    assert forall|n: Seq<char>| names(active.push(name)).contains(n) <==> names(active).insert(
        name@,
    ).contains(n) by {
        if names(active.push(name)).contains(n) {
            let k = choose|k: int| 0 <= k < active.len() + 1 && (#[trigger] active.push(name)[k])@ == n;
            if k < active.len() {
                assert(active[k] == active.push(name)[k]);
            }
        }
        if names(active).contains(n) {
            let k = choose|k: int| 0 <= k < active.len() && (#[trigger] active[k])@ == n;
            assert(active.push(name)[k] == active[k]);
        }
        if n == name@ {
            assert(active.push(name)[active.len() as int] == name);
        }
    }
    assert(names(active.push(name)) =~= names(active).insert(name@));
}

proof fn lemma_errors_view_push(s: Seq<VariableResolutionError>, e: VariableResolutionError)
    ensures
        errors_view(s.push(e)) == errors_view(s).push(error_view(e)),
{
    assert(errors_view(s.push(e)) =~= errors_view(s).push(error_view(e)));
}

/// The code points of a string.
pub(crate) fn source_chars(source: &str) -> (chars: Vec<char>)
    ensures
        chars@ == source@,
{
    let mut chars: Vec<char> = Vec::new();
    proof {
        broadcast use vstd::string::group_string_axioms;
    }
    for c in iter: source.chars()
        invariant
            chars@ == iter.seq().take(iter.index() as int),
    {
        chars.push(c);
    }
    proof {
        broadcast use vstd::string::group_string_axioms;
        assert(chars@ =~= source@);
    }
    chars
}

/// The index of the code point that starts at byte `b`, if one does (the length for the end).
pub(crate) fn char_index_at_byte(chars: &Vec<char>, b: usize) -> (r: Option<usize>)
    ensures
        match r {
            Some(i) => char_at_byte(chars@, b as int) == Some(i as int),
            None => char_at_byte(chars@, b as int) is None,
        },
{
    let mut i: usize = 0;
    let mut offset: usize = 0;
    loop
        invariant
            i <= chars@.len(),
            offset == byte_offset(chars@, i as int),
            forall|k: int| 0 <= k < i ==> byte_offset(chars@, k) != b,
        decreases chars@.len() - i,
    {
        if offset == b {
            proof {
                lemma_char_at_byte(chars@, b as int, i as int);
            }
            return Some(i);
        }
        if i == chars.len() {
            return None;
        }
        match offset.checked_add(len_utf8(chars[i])) {
            Some(next) => {
                offset = next;
                i = i + 1;
            },
            None => {
                proof {
                    assert forall|k: int| 0 <= k <= chars@.len() implies byte_offset(chars@, k)
                        != b by {
                        if k > i {
                            lemma_byte_offset_mono(chars@, i + 1, k);
                        }
                    }
                }
                return None;
            },
        }
    }
}

/// The code points `i..j` as a string.
pub(crate) fn run_string(chars: &Vec<char>, i: usize, j: usize) -> (r: String)
    requires
        i <= j <= chars@.len(),
    ensures
        r@ == chars@.subrange(i as int, j as int),
{
    let mut r = String::new();
    let mut k: usize = i;
    while k < j
        invariant
            i <= k <= j <= chars@.len(),
            r@ == chars@.subrange(i as int, k as int),
        decreases j - k,
    {
        push_char(&mut r, chars[k]);
        assert(chars@.subrange(i as int, k + 1) =~= chars@.subrange(i as int, k as int).push(chars@[k as int]));
        k = k + 1;
    }
    r
}

/// Where the text of a token lies among the code points of the source.
fn token_range(chars: &Vec<char>, token: &TokenData) -> (r: Option<(usize, usize)>)
    ensures
        match r {
            Some((i, j)) => i <= j <= chars@.len() && token_text_of(chars@, *token) == Some(
                chars@.subrange(i as int, j as int),
            ),
            None => token_text_of(chars@, *token) is None,
        },
{
    let LexerSpan(start, cursor) = token.span;
    let i = match char_index_at_byte(chars, start) {
        Some(i) => i,
        None => return None,
    };
    let k = match char_index_at_byte(chars, cursor) {
        Some(k) => k,
        None => return None,
    };
    let j = if token.kind == TokenKind::FUNCTION {
        k
    } else {
        if k >= chars.len() {
            return None;
        }
        k + 1
    };
    if i > j {
        return None;
    }
    Some((i, j))
}

/// The source text of a token.
fn token_text(chars: &Vec<char>, token: &TokenData) -> (r: Option<String>)
    ensures
        match r {
            Some(t) => token_text_of(chars@, *token) == Some(t@),
            None => token_text_of(chars@, *token) is None,
        },
{
    match token_range(chars, token) {
        Some((i, j)) => Some(run_string(chars, i, j)),
        None => None,
    }
}

/// Whether a function token is `var(`.
fn is_var_function(chars: &Vec<char>, name: &TokenData) -> (r: bool)
    ensures
        r == names_var(chars@, *name),
{
    match token_range(chars, name) {
        Some((i, j)) => {
            let ghost t = chars@.subrange(i as int, j as int);
            if j - i != 3 {
                return false;
            }
            assert(t[0] == chars@[i as int] && t[1] == chars@[i + 1] && t[2] == chars@[i + 2]);
            (chars[i] == 'v' || chars[i] == 'V') && (chars[i + 1] == 'a' || chars[i + 1] == 'A')
                && (chars[i + 2] == 'r' || chars[i + 2] == 'R')
        },
        None => false,
    }
}

fn is_whitespace_value(value: &ComponentValue) -> (r: bool)
    ensures
        r == is_whitespace_tree(cv_model(*value)),
{
    match value {
        ComponentValue::PRESERVED(t) => t.kind == TokenKind::WHITESPACE,
        _ => false,
    }
}

fn is_comma_value(value: &ComponentValue) -> (r: bool)
    ensures
        r == is_comma_tree(cv_model(*value)),
{
    match value {
        ComponentValue::PRESERVED(t) => t.kind == TokenKind::COMMA,
        _ => false,
    }
}

/// The arguments of `var()` before its first comma, and those after it if it has one.
fn split_var_arguments(values: &[ComponentValue]) -> (r: (&[ComponentValue], Option<&[ComponentValue]>))
    ensures
        first_comma(cvs_model(values@)) <= values@.len(),
        r.0@ == values@.take(first_comma(cvs_model(values@))),
        match r.1 {
            Some(rest) => first_comma(cvs_model(values@)) < values@.len() && rest@ == values@.skip(
                first_comma(cvs_model(values@)) + 1,
            ),
            None => first_comma(cvs_model(values@)) == values@.len(),
        },
{
    let ghost model = cvs_model(values@);
    proof {
        lemma_cvs_model_len(values@);
    }
    let mut i: usize = 0;
    while i < values.len()
        invariant
            i <= values@.len(),
            model == cvs_model(values@),
            model.len() == values@.len(),
            forall|j: int| 0 <= j < i ==> !is_comma_tree(#[trigger] model[j]),
        decreases values@.len() - i,
    {
        proof {
            lemma_cvs_model_index(values@, i as int);
        }
        if is_comma_value(&values[i]) {
            proof {
                lemma_first_comma(model, i as int);
            }
            let head = vstd::slice::slice_subrange(values, 0, i);
            let rest = vstd::slice::slice_subrange(values, i + 1, values.len());
            assert(head@ =~= values@.take(i as int));
            assert(rest@ =~= values@.skip(i + 1));
            return (head, Some(rest));
        }
        i = i + 1;
    }
    proof {
        assert(!exists|k: int| is_first_comma(model, k));
        assert(values@.take(values@.len() as int) =~= values@);
    }
    (values, None)
}

/// The custom-property name that the first argument of `var()` gives.
fn variable_name(chars: &Vec<char>, values: &[ComponentValue]) -> (r: Option<String>)
    ensures
        match r {
            Some(n) => variable_name_of(chars@, cvs_model(values@)) == Some(n@),
            None => variable_name_of(chars@, cvs_model(values@)) is None,
        },
{
    let ghost model = cvs_model(values@);
    proof {
        lemma_cvs_model_len(values@);
    }
    let mut count: usize = 0;
    let mut first: usize = 0;
    let mut i: usize = 0;
    while i < values.len()
        invariant
            i <= values@.len(),
            model == cvs_model(values@),
            model.len() == values@.len(),
            count == significant(model.take(i as int)).len(),
            count <= i,
            count > 0 ==> first < i && significant(model.take(i as int))[0] == model[first as int],
        decreases values@.len() - i,
    {
        proof {
            lemma_cvs_model_index(values@, i as int);
            assert(model.take(i + 1).drop_last() =~= model.take(i as int));
            assert(model.take(i + 1).last() == model[i as int]);
        }
        if !is_whitespace_value(&values[i]) {
            if count == 0 {
                first = i;
            }
            count = count + 1;
        }
        i = i + 1;
    }
    proof {
        assert(model.take(i as int) =~= model);
    }
    if count != 1 {
        return None;
    }
    proof {
        lemma_cvs_model_index(values@, first as int);
    }
    match &values[first] {
        ComponentValue::PRESERVED(token) => {
            if token.kind != TokenKind::IDENT {
                return None;
            }
            match token_range(chars, token) {
                Some((a, b)) => {
                    let ghost n = chars@.subrange(a as int, b as int);
                    if b - a >= 2 && chars[a] == '-' && chars[a + 1] == '-' {
                        assert(n[0] == chars@[a as int] && n[1] == chars@[a + 1]);
                        Some(run_string(chars, a, b))
                    } else {
                        assert(b - a >= 2 ==> n[0] == chars@[a as int] && n[1] == chars@[a + 1]);
                        None
                    }
                },
                None => None,
            }
        },
        _ => None,
    }
}

/// Whether `name` is being substituted.
fn is_active(active: &Vec<String>, name: &String) -> (r: bool)
    ensures
        r == names(active@).contains(name@),
{
    let mut k: usize = 0;
    while k < active.len()
        invariant
            k <= active@.len(),
            forall|j: int| 0 <= j < k ==> (#[trigger] active@[j])@ != name@,
        decreases active@.len() - k,
    {
        if active[k] == *name {
            assert(names(active@).contains(active@[k as int]@));
            return true;
        }
        k = k + 1;
    }
    false
}

fn error(
    reason: VariableResolutionErrorReason,
    token: &TokenData,
    variable: Option<String>,
) -> (e: VariableResolutionError)
    ensures
        error_view(e) == error_at(
            reason,
            *token,
            match variable {
                Some(v) => Some(v@),
                None => None,
            },
        ),
{
    VariableResolutionError { reason, line: token.line, span: token.span, variable }
}

/// Resolves the `var()` functions of a value list against `resolver`.
///
/// The result is `Resolved` with the substituted values when no error occurred, and `Invalid`
/// with every error, in the order met, otherwise. `values` itself is left as it is.
pub fn resolve_variables<R: VariableResolver>(
    source: &str,
    values: &[ComponentValue],
    resolver: &R,
) -> (r: ResolutionResult)
    ensures
        match r {
            ResolutionResult::Resolved(v) => {
                &&& resolution(source@, cvs_model(values@), resolver).1.len() == 0
                &&& cvs_model(v@) == resolution(source@, cvs_model(values@), resolver).0
                &&& trees_var_free(source@, cvs_model(v@))
            },
            ResolutionResult::Invalid(e) => {
                &&& resolution(source@, cvs_model(values@), resolver).1.len() > 0
                &&& errors_view(e@) == resolution(source@, cvs_model(values@), resolver).1
            },
        },
{
    let chars = source_chars(source);
    let mut active: Vec<String> = Vec::new();
    let mut errors: Vec<VariableResolutionError> = Vec::new();
    proof {
        assert(names(active@) =~= Set::<Seq<char>>::empty());
        assert(errors_view(errors@) =~= Seq::<ResolutionErrorView>::empty());
    }
    let resolved = resolve_values(&chars, values, resolver, &mut active, &mut errors);
    proof {
        assert(Seq::<ResolutionErrorView>::empty() + resolution(
            source@,
            cvs_model(values@),
            resolver,
        ).1 =~= resolution(source@, cvs_model(values@), resolver).1);
    }
    if errors.len() == 0 {
        proof {
            law_resolved_values_are_var_free(source@, cvs_model(values@), resolver);
        }
        ResolutionResult::Resolved(resolved)
    } else {
        ResolutionResult::Invalid(errors)
    }
}

/// Resolves the value of a declaration.
pub fn resolve_declaration_value<R: VariableResolver>(
    source: &str,
    declaration: &Declaration,
    resolver: &R,
) -> (r: ResolutionResult)
    ensures
        match r {
            ResolutionResult::Resolved(v) => {
                &&& resolution(source@, cvs_model(declaration.value@), resolver).1.len() == 0
                &&& cvs_model(v@) == resolution(source@, cvs_model(declaration.value@), resolver).0
                &&& trees_var_free(source@, cvs_model(v@))
            },
            ResolutionResult::Invalid(e) => {
                &&& resolution(source@, cvs_model(declaration.value@), resolver).1.len() > 0
                &&& errors_view(e@) == resolution(source@, cvs_model(declaration.value@), resolver).1
            },
        },
{
    resolve_variables(source, declaration.value.as_slice(), resolver)
}

fn resolve_values<R: VariableResolver>(
    chars: &Vec<char>,
    values: &[ComponentValue],
    resolver: &R,
    active: &mut Vec<String>,
    errors: &mut Vec<VariableResolutionError>,
) -> (r: Vec<ComponentValue>)
    ensures
        final(active)@ == old(active)@,
        cvs_model(r@) == resolve_trees(chars@, cvs_model(values@), resolver, names(old(active)@)).0,
        errors_view(final(errors)@) == errors_view(old(errors)@) + resolve_trees(
            chars@,
            cvs_model(values@),
            resolver,
            names(old(active)@),
        ).1,
    decreases fresh_names(chars@, names(old(active)@)), trees_size(cvs_model(values@)), 3nat,
{
    let ghost start = active@;
    let ghost reported = errors_view(errors@);
    let ghost model = cvs_model(values@);
    let mut resolved: Vec<ComponentValue> = Vec::new();
    let mut i: usize = 0;
    proof {
        lemma_cvs_model_len(values@);
        assert(model.take(0) =~= Seq::<ValueTree>::empty());
        assert(reported + Seq::<ResolutionErrorView>::empty() =~= reported);
    }
    while i < values.len()
        invariant
            i <= values@.len(),
            active@ == start,
            start == old(active)@,
            model == cvs_model(values@),
            model.len() == values@.len(),
            cvs_model(resolved@) == resolve_trees(chars@, model.take(i as int), resolver, names(start)).0,
            errors_view(errors@) == reported + resolve_trees(
                chars@,
                model.take(i as int),
                resolver,
                names(start),
            ).1,
        decreases values@.len() - i,
    {
        proof {
            lemma_cvs_model_index(values@, i as int);
            lemma_tree_size_in(model, i as int);
            assert(tree_size(cv_model(values@[i as int])) <= trees_size(cvs_model(values@)));
        }
        let ghost done = resolved@;
        let ghost errors_before = errors_view(errors@);
        let mut part = resolve_component(chars, &values[i], resolver, active, errors);
        let ghost part_model = part@;
        resolved.append(&mut part);
        proof {
            lemma_cvs_model_concat(done, part_model);
            let t = model.take(i + 1);
            assert(t.drop_last() =~= model.take(i as int));
            assert(t.last() == model[i as int]);
            let a = resolve_trees(chars@, model.take(i as int), resolver, names(start));
            let b = resolve_tree(chars@, model[i as int], resolver, names(start));
            assert(resolve_trees(chars@, t, resolver, names(start)) == (a.0 + b.0, a.1 + b.1));
            assert(reported + (a.1 + b.1) =~= (reported + a.1) + b.1);
        }
        i = i + 1;
    }
    proof {
        assert(model.take(i as int) =~= model);
    }
    resolved
}

fn resolve_component<R: VariableResolver>(
    chars: &Vec<char>,
    value: &ComponentValue,
    resolver: &R,
    active: &mut Vec<String>,
    errors: &mut Vec<VariableResolutionError>,
) -> (r: Vec<ComponentValue>)
    ensures
        final(active)@ == old(active)@,
        cvs_model(r@) == resolve_tree(chars@, cv_model(*value), resolver, names(old(active)@)).0,
        errors_view(final(errors)@) == errors_view(old(errors)@) + resolve_tree(
            chars@,
            cv_model(*value),
            resolver,
            names(old(active)@),
        ).1,
    decreases fresh_names(chars@, names(old(active)@)), tree_size(cv_model(*value)), 2nat,
{
    let mut r: Vec<ComponentValue> = Vec::new();
    match value {
        ComponentValue::PRESERVED(token) => {
            r.push(ComponentValue::PRESERVED(*token));
            proof {
                assert(errors_view(errors@) + Seq::<ResolutionErrorView>::empty() =~= errors_view(errors@));
            }
        },
        ComponentValue::SIMPLE_BLOCK(block) => {
            r.push(ComponentValue::SIMPLE_BLOCK(resolve_block(chars, block, resolver, active, errors)));
        },
        ComponentValue::FUNCTION(function) => {
            if is_var_function(chars, &function.name) {
                return resolve_var_function(chars, function, resolver, active, errors);
            }
            r.push(ComponentValue::FUNCTION(resolve_function(chars, function, resolver, active, errors)));
        },
    }
    proof {
        assert(r@.drop_last() =~= Seq::<ComponentValue>::empty());
        assert(cvs_model(r@.drop_last()) =~= Seq::<ValueTree>::empty());
        assert(cvs_model(r@) =~= seq![cv_model(r@[0])]);
    }
    r
}

fn resolve_block<R: VariableResolver>(
    chars: &Vec<char>,
    block: &SimpleBlock,
    resolver: &R,
    active: &mut Vec<String>,
    errors: &mut Vec<VariableResolutionError>,
) -> (r: SimpleBlock)
    ensures
        final(active)@ == old(active)@,
        r.opening == block.opening,
        r.closing == block.closing,
        cvs_model(r.values@) == resolve_trees(chars@, cvs_model(block.values@), resolver, names(old(active)@)).0,
        errors_view(final(errors)@) == errors_view(old(errors)@) + resolve_trees(
            chars@,
            cvs_model(block.values@),
            resolver,
            names(old(active)@),
        ).1,
    decreases fresh_names(chars@, names(old(active)@)), tree_size(cv_model(ComponentValue::SIMPLE_BLOCK(*block))), 1nat,
{
    SimpleBlock {
        opening: block.opening,
        values: resolve_values(chars, block.values.as_slice(), resolver, active, errors),
        closing: block.closing,
    }
}

fn resolve_function<R: VariableResolver>(
    chars: &Vec<char>,
    function: &Function,
    resolver: &R,
    active: &mut Vec<String>,
    errors: &mut Vec<VariableResolutionError>,
) -> (r: Function)
    ensures
        final(active)@ == old(active)@,
        r.name == function.name,
        r.closing == function.closing,
        cvs_model(r.values@) == resolve_trees(chars@, cvs_model(function.values@), resolver, names(old(active)@)).0,
        errors_view(final(errors)@) == errors_view(old(errors)@) + resolve_trees(
            chars@,
            cvs_model(function.values@),
            resolver,
            names(old(active)@),
        ).1,
    decreases fresh_names(chars@, names(old(active)@)), tree_size(cv_model(ComponentValue::FUNCTION(*function))), 1nat,
{
    Function {
        name: function.name,
        values: resolve_values(chars, function.values.as_slice(), resolver, active, errors),
        closing: function.closing,
    }
}

fn resolve_var_function<R: VariableResolver>(
    chars: &Vec<char>,
    function: &Function,
    resolver: &R,
    active: &mut Vec<String>,
    errors: &mut Vec<VariableResolutionError>,
) -> (r: Vec<ComponentValue>)
    requires
        names_var(chars@, function.name),
    ensures
        final(active)@ == old(active)@,
        cvs_model(r@) == resolve_tree(chars@, cv_model(ComponentValue::FUNCTION(*function)), resolver, names(old(active)@)).0,
        errors_view(final(errors)@) == errors_view(old(errors)@) + resolve_tree(
            chars@,
            cv_model(ComponentValue::FUNCTION(*function)),
            resolver,
            names(old(active)@),
        ).1,
    decreases fresh_names(chars@, names(old(active)@)), tree_size(cv_model(ComponentValue::FUNCTION(*function))), 0nat,
{
    let ghost inner = cvs_model(function.values@);
    let ghost outcome = resolve_tree(chars@, cv_model(ComponentValue::FUNCTION(*function)), resolver, names(active@));
    let ghost before = errors@;
    if function.closing.is_none() {
        let e = error(VariableResolutionErrorReason::INVALID_FUNCTION, &function.name, None);
        errors.push(e);
        proof {
            lemma_errors_view_push(before, e);
        }
        return Vec::new();
    }
    let (name_values, fallback_values) = split_var_arguments(function.values.as_slice());
    proof {
        let comma = first_comma(inner);
        assert(function.values@ =~= function.values@.take(comma) + function.values@.skip(comma));
        lemma_cvs_model_concat(function.values@.take(comma), function.values@.skip(comma));
        lemma_cvs_model_len(function.values@.take(comma));
        assert(inner.take(comma) =~= cvs_model(function.values@.take(comma)));
        if comma < function.values@.len() {
            let rest = function.values@.skip(comma);
            assert(rest =~= rest.take(1) + rest.skip(1));
            lemma_cvs_model_concat(rest.take(1), rest.skip(1));
            lemma_cvs_model_len(rest.take(1));
            assert(rest.skip(1) =~= function.values@.skip(comma + 1));
            assert(inner.skip(comma + 1) =~= cvs_model(function.values@.skip(comma + 1)));
        }
    }
    let name = match variable_name(chars, name_values) {
        Some(name) => name,
        None => {
            let e = error(VariableResolutionErrorReason::INVALID_NAME, &function.name, None);
            errors.push(e);
            proof {
                lemma_errors_view_push(before, e);
            }
            return Vec::new();
        },
    };
    if is_active(active, &name) {
        let e = error(VariableResolutionErrorReason::CYCLE, &function.name, Some(name));
        errors.push(e);
        proof {
            lemma_errors_view_push(before, e);
        }
        return Vec::new();
    }
    let ghost start = active@;
    proof {
        lemma_name_is_run(chars@, inner.take(first_comma(inner)));
        lemma_fresh_insert(chars@, names(start), name@);
        lemma_names_push(start, name);
    }
    active.push(name.clone());
    let replacement = match resolver.resolve(name.as_str()) {
        Some(values) => resolve_values(chars, values, resolver, active, errors),
        None => match fallback_values {
            Some(values) => resolve_values(chars, values, resolver, active, errors),
            None => {
                let e = error(
                    VariableResolutionErrorReason::MISSING_VARIABLE,
                    &function.name,
                    Some(name.clone()),
                );
                errors.push(e);
                proof {
                    lemma_errors_view_push(before, e);
                }
                Vec::new()
            },
        },
    };
    active.pop();
    proof {
        assert(active@ =~= start);
    }
    replacement
}


// ---------------------------------------------------------------------------------------------
// Laws.
// ---------------------------------------------------------------------------------------------

/// Whether no `var()` function occurs in a value, at any depth.
pub open spec fn tree_var_free(src: Seq<char>, v: ValueTree) -> bool
    decreases v, 0nat,
{
    match v {
        ValueTree::Token(_) => true,
        ValueTree::Block(_, inner, _) => trees_var_free(src, inner),
        ValueTree::Call(name, inner, _) => !names_var(src, name) && trees_var_free(src, inner),
    }
}

pub open spec fn trees_var_free(src: Seq<char>, s: Seq<ValueTree>) -> bool
    decreases s, 1nat,
{
    if s.len() == 0 {
        true
    } else {
        trees_var_free(src, s.drop_last()) && tree_var_free(src, s.last())
    }
}

/// Values without `var()` functions resolve to themselves, without errors, whatever the
/// environment and whatever is being substituted.
pub proof fn law_var_free_values_resolve_to_themselves<R: VariableResolver>(
    src: Seq<char>,
    s: Seq<ValueTree>,
    env: &R,
    active: Set<Seq<char>>,
)
    requires
        trees_var_free(src, s),
    ensures
        resolve_trees(src, s, env, active) == (s, Seq::<ResolutionErrorView>::empty()),
    decreases s, 1nat,
{
    if s.len() > 0 {
        law_var_free_values_resolve_to_themselves(src, s.drop_last(), env, active);
        lemma_var_free_value_resolves_to_itself(src, s.last(), env, active);
        assert(s.drop_last().push(s.last()) =~= s);
        assert(s.drop_last() + seq![s.last()] =~= s);
        assert(Seq::<ResolutionErrorView>::empty() + Seq::<ResolutionErrorView>::empty()
            =~= Seq::<ResolutionErrorView>::empty());
    }
}

proof fn lemma_var_free_value_resolves_to_itself<R: VariableResolver>(
    src: Seq<char>,
    v: ValueTree,
    env: &R,
    active: Set<Seq<char>>,
)
    requires
        tree_var_free(src, v),
    ensures
        resolve_tree(src, v, env, active) == (seq![v], Seq::<ResolutionErrorView>::empty()),
    decreases v, 0nat,
{
    match v {
        ValueTree::Token(_) => {},
        ValueTree::Block(_, inner, _) => {
            law_var_free_values_resolve_to_themselves(src, inner, env, active);
        },
        ValueTree::Call(_, inner, _) => {
            law_var_free_values_resolve_to_themselves(src, inner, env, active);
        },
    }
}

/// Resolution without any `var()` function gives back the values as they are.
pub proof fn law_resolution_of_var_free_values<R: VariableResolver>(
    src: Seq<char>,
    values: Seq<ValueTree>,
    env: &R,
)
    requires
        trees_var_free(src, values),
    ensures
        resolution(src, values, env).0 == values,
        resolution(src, values, env).1.len() == 0,
{
    law_var_free_values_resolve_to_themselves(src, values, env, Set::empty());
}

/// A name being substituted is not substituted again: resolving `var(n)` while `n` is active
/// gives nothing and one `CYCLE` error for `n`, whatever `n` is bound to.
pub proof fn law_active_names_are_cycles<R: VariableResolver>(
    src: Seq<char>,
    name: TokenData,
    args: Seq<ValueTree>,
    closing: TokenData,
    env: &R,
    active: Set<Seq<char>>,
)
    requires
        names_var(src, name),
        variable_name_of(src, args.take(first_comma(args))) matches Some(n) && active.contains(n),
    ensures
        resolve_tree(src, ValueTree::Call(name, args, Some(closing)), env, active) == (
            Seq::<ValueTree>::empty(),
            seq![
                error_at(
                    VariableResolutionErrorReason::CYCLE,
                    name,
                    variable_name_of(src, args.take(first_comma(args))),
                ),
            ],
        ),
{
}

proof fn lemma_var_free_concat(src: Seq<char>, a: Seq<ValueTree>, b: Seq<ValueTree>)
    ensures
        trees_var_free(src, a + b) == (trees_var_free(src, a) && trees_var_free(src, b)),
    decreases b.len(),
{
    if b.len() == 0 {
        assert(a + b =~= a);
    } else {
        lemma_var_free_concat(src, a, b.drop_last());
        assert((a + b).drop_last() =~= a + b.drop_last());
        assert((a + b).last() == b.last());
    }
}

/// Substitution reaches every depth: when resolving reports no error, no `var()` function is
/// left anywhere in what it gives, neither at the top nor inside blocks and other functions.
pub proof fn law_resolution_without_errors_is_var_free<R: VariableResolver>(
    src: Seq<char>,
    s: Seq<ValueTree>,
    env: &R,
    active: Set<Seq<char>>,
)
    requires
        resolve_trees(src, s, env, active).1.len() == 0,
    ensures
        trees_var_free(src, resolve_trees(src, s, env, active).0),
    decreases fresh_names(src, active), trees_size(s), 1nat,
{
    if s.len() > 0 {
        lemma_tree_size_positive(s.last());
        let a = resolve_trees(src, s.drop_last(), env, active);
        let b = resolve_tree(src, s.last(), env, active);
        assert(a.1.len() + b.1.len() == 0);
        law_resolution_without_errors_is_var_free(src, s.drop_last(), env, active);
        lemma_tree_without_errors_is_var_free(src, s.last(), env, active);
        lemma_var_free_concat(src, a.0, b.0);
    }
}

proof fn lemma_tree_without_errors_is_var_free<R: VariableResolver>(
    src: Seq<char>,
    v: ValueTree,
    env: &R,
    active: Set<Seq<char>>,
)
    requires
        resolve_tree(src, v, env, active).1.len() == 0,
    ensures
        trees_var_free(src, resolve_tree(src, v, env, active).0),
    decreases fresh_names(src, active), tree_size(v), 0nat,
{
    match v {
        ValueTree::Token(_) => {
            assert(seq![v].drop_last() =~= Seq::<ValueTree>::empty());
            assert(trees_var_free(src, Seq::<ValueTree>::empty()));
            assert(tree_var_free(src, v));
            assert(seq![v].last() == v);
            assert(trees_var_free(src, seq![v]));
            assert(resolve_tree(src, v, env, active).0 == seq![v]);
        },
        ValueTree::Block(opening, inner, closing) => {
            law_resolution_without_errors_is_var_free(src, inner, env, active);
            let out = seq![ValueTree::Block(opening, resolve_trees(src, inner, env, active).0, closing)];
            assert(out.drop_last() =~= Seq::<ValueTree>::empty());
            assert(out.last() == out[0]);
            assert(tree_var_free(src, out[0]));
            assert(trees_var_free(src, out.drop_last()));
            assert(trees_var_free(src, out));
        },
        ValueTree::Call(name, inner, closing) => {
            if !names_var(src, name) {
                law_resolution_without_errors_is_var_free(src, inner, env, active);
                let out = seq![ValueTree::Call(name, resolve_trees(src, inner, env, active).0, closing)];
                assert(out.drop_last() =~= Seq::<ValueTree>::empty());
                assert(out.last() == out[0]);
                assert(tree_var_free(src, out[0]));
                assert(trees_var_free(src, out.drop_last()));
                assert(trees_var_free(src, out));
            } else if closing is Some {
                let comma = first_comma(inner);
                if let Some(n) = variable_name_of(src, inner.take(comma)) {
                    if !active.contains(n) {
                        lemma_name_is_run(src, inner.take(comma));
                        lemma_fresh_insert(src, active, n);
                        match env.binding(n) {
                            Some(bound) => {
                                law_resolution_without_errors_is_var_free(
                                    src,
                                    bound,
                                    env,
                                    active.insert(n),
                                );
                            },
                            None => if comma < inner.len() {
                                law_resolution_without_errors_is_var_free(
                                    src,
                                    inner.skip(comma + 1),
                                    env,
                                    active.insert(n),
                                );
                            },
                        }
                    }
                }
            }
        },
    }
}

/// Resolving a declaration's values without error leaves no `var()` function in them, at
/// any depth.
pub proof fn law_resolved_values_are_var_free<R: VariableResolver>(
    src: Seq<char>,
    values: Seq<ValueTree>,
    env: &R,
)
    requires
        resolution(src, values, env).1.len() == 0,
    ensures
        trees_var_free(src, resolution(src, values, env).0),
{
    law_resolution_without_errors_is_var_free(src, values, env, Set::empty());
}

/// A `var()` whose custom property is bound to values without `var()` is replaced by exactly
/// those values, without error; an unbound one with a fallback without `var()` by exactly the
/// fallback.
pub proof fn law_var_is_replaced_by_its_binding_or_fallback<R: VariableResolver>(
    src: Seq<char>,
    name: TokenData,
    args: Seq<ValueTree>,
    closing: TokenData,
    env: &R,
    active: Set<Seq<char>>,
)
    requires
        names_var(src, name),
        variable_name_of(src, args.take(first_comma(args))) matches Some(n) && !active.contains(n),
    ensures
        ({
            let n = variable_name_of(src, args.take(first_comma(args)))->Some_0;
            let r = resolve_tree(src, ValueTree::Call(name, args, Some(closing)), env, active);
            &&& env.binding(n) matches Some(bound) ==> (trees_var_free(src, bound) ==> r == (
                bound,
                Seq::<ResolutionErrorView>::empty(),
            ))
            &&& (env.binding(n) is None && first_comma(args) < args.len() && trees_var_free(
                src,
                args.skip(first_comma(args) + 1),
            )) ==> r == (args.skip(first_comma(args) + 1), Seq::<ResolutionErrorView>::empty())
        }),
{
    let n = variable_name_of(src, args.take(first_comma(args)))->Some_0;
    match env.binding(n) {
        Some(bound) => if trees_var_free(src, bound) {
            law_var_free_values_resolve_to_themselves(src, bound, env, active.insert(n));
        },
        None => {
            let c = first_comma(args);
            if c < args.len() && trees_var_free(src, args.skip(c + 1)) {
                law_var_free_values_resolve_to_themselves(src, args.skip(c + 1), env, active.insert(n));
            }
        },
    }
}

} // verus!
