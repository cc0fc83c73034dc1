use vstd::prelude::*;
use crate::parser::{
    AtRule, ComponentValue, Declaration, Function, QualifiedRule, Rule, SimpleBlock, StyleBlock,
    StyleBlockItem, Stylesheet, TokenData,
};

verus! {

/// A traversal of the syntax tree. An implementation decides, node by node, what to record
/// and calls the matching `walk_*` function to go on into the node's children.
///
/// Each `visit_*` method comes with a relation, `*_visited(before, node, after)`, that the
/// implementation defines: which states the visitor may be left in after visiting `node`
/// from `before`. The `walk_*` functions are stated over these relations. By default a
/// relation admits every state: nothing is then known of what a visit did.
pub trait Visitor {
    open spec fn stylesheet_visited(&self, stylesheet: Stylesheet, after: &Self) -> bool {
        true
    }

    open spec fn rule_visited(&self, rule: Rule, after: &Self) -> bool {
        true
    }

    open spec fn at_rule_visited(&self, at_rule: AtRule, after: &Self) -> bool {
        true
    }

    open spec fn qualified_rule_visited(&self, rule: QualifiedRule, after: &Self) -> bool {
        true
    }

    open spec fn style_block_visited(&self, block: StyleBlock, after: &Self) -> bool {
        true
    }

    open spec fn style_block_item_visited(&self, item: StyleBlockItem, after: &Self) -> bool {
        true
    }

    open spec fn declaration_visited(&self, declaration: Declaration, after: &Self) -> bool {
        true
    }

    open spec fn component_value_visited(&self, value: ComponentValue, after: &Self) -> bool {
        true
    }

    open spec fn simple_block_visited(&self, block: SimpleBlock, after: &Self) -> bool {
        true
    }

    open spec fn function_visited(&self, function: Function, after: &Self) -> bool {
        true
    }

    open spec fn token_visited(&self, token: TokenData, after: &Self) -> bool {
        true
    }

    fn visit_stylesheet(&mut self, stylesheet: &Stylesheet)
        ensures
            old(self).stylesheet_visited(*stylesheet, final(self)),
    ;

    fn visit_rule(&mut self, rule: &Rule)
        ensures
            old(self).rule_visited(*rule, final(self)),
    ;

    fn visit_at_rule(&mut self, at_rule: &AtRule)
        ensures
            old(self).at_rule_visited(*at_rule, final(self)),
    ;

    fn visit_qualified_rule(&mut self, rule: &QualifiedRule)
        ensures
            old(self).qualified_rule_visited(*rule, final(self)),
    ;

    fn visit_style_block(&mut self, block: &StyleBlock)
        ensures
            old(self).style_block_visited(*block, final(self)),
    ;

    fn visit_style_block_item(&mut self, item: &StyleBlockItem)
        ensures
            old(self).style_block_item_visited(*item, final(self)),
    ;

    fn visit_declaration(&mut self, declaration: &Declaration)
        ensures
            old(self).declaration_visited(*declaration, final(self)),
    ;

    fn visit_component_value(&mut self, value: &ComponentValue)
        ensures
            old(self).component_value_visited(*value, final(self)),
    ;

    fn visit_simple_block(&mut self, block: &SimpleBlock)
        ensures
            old(self).simple_block_visited(*block, final(self)),
    ;

    fn visit_function(&mut self, function: &Function)
        ensures
            old(self).function_visited(*function, final(self)),
    ;

    fn visit_token(&mut self, token: &TokenData)
        ensures
            old(self).token_visited(*token, final(self)),
    ;
}

/// Visiting each rule of `rules` in turn may lead from `before` to `after`.
pub open spec fn rules_visited<V: Visitor + ?Sized>(before: &V, rules: Seq<Rule>, after: &V) -> bool
    decreases rules.len(),
{
    if rules.len() == 0 {
        before == after
    } else {
        exists|mid: &V|
            rules_visited(before, rules.drop_last(), mid) && #[trigger] mid.rule_visited(
                rules.last(),
                after,
            )
    }
}

/// Visiting each component value of `values` in turn may lead from `before` to `after`.
pub open spec fn values_visited<V: Visitor + ?Sized>(
    before: &V,
    values: Seq<ComponentValue>,
    after: &V,
) -> bool
    decreases values.len(),
{
    if values.len() == 0 {
        before == after
    } else {
        exists|mid: &V|
            values_visited(before, values.drop_last(), mid) && #[trigger] mid.component_value_visited(
                values.last(),
                after,
            )
    }
}

/// Visiting each style block item of `items` in turn may lead from `before` to `after`.
pub open spec fn items_visited<V: Visitor + ?Sized>(
    before: &V,
    items: Seq<StyleBlockItem>,
    after: &V,
) -> bool
    decreases items.len(),
{
    if items.len() == 0 {
        before == after
    } else {
        exists|mid: &V|
            items_visited(before, items.drop_last(), mid) && #[trigger] mid.style_block_item_visited(
                items.last(),
                after,
            )
    }
}

/// Visiting the token, where there is one, may lead from `before` to `after`.
pub open spec fn token_opt_visited<V: Visitor + ?Sized>(
    before: &V,
    token: Option<TokenData>,
    after: &V,
) -> bool {
    match token {
        None => before == after,
        Some(t) => before.token_visited(t, after),
    }
}

/// Visiting the block, where there is one, may lead from `before` to `after`.
pub open spec fn simple_block_opt_visited<V: Visitor + ?Sized>(
    before: &V,
    block: Option<SimpleBlock>,
    after: &V,
) -> bool {
    match block {
        None => before == after,
        Some(b) => before.simple_block_visited(b, after),
    }
}

/// Visiting the style block, where there is one, may lead from `before` to `after`.
pub open spec fn style_block_opt_visited<V: Visitor + ?Sized>(
    before: &V,
    block: Option<StyleBlock>,
    after: &V,
) -> bool {
    match block {
        None => before == after,
        Some(b) => before.style_block_visited(b, after),
    }
}

/// The name, then each prelude value, then the block if any.
pub open spec fn at_rule_walked<V: Visitor + ?Sized>(before: &V, at_rule: AtRule, after: &V) -> bool {
    exists|named: &V, with_prelude: &V|
        #![trigger before.token_visited(at_rule.name, named), values_visited(named, at_rule.prelude@, with_prelude)]
        before.token_visited(at_rule.name, named) && values_visited(named, at_rule.prelude@, with_prelude)
            && simple_block_opt_visited(with_prelude, at_rule.block, after)
}

/// Each prelude value, then the style block if any.
pub open spec fn qualified_rule_walked<V: Visitor + ?Sized>(
    before: &V,
    rule: QualifiedRule,
    after: &V,
) -> bool {
    exists|with_prelude: &V|
        #[trigger] values_visited(before, rule.prelude@, with_prelude) && style_block_opt_visited(
            with_prelude,
            rule.block,
            after,
        )
}

/// The opening token, each item, then the closing token if any.
pub open spec fn style_block_walked<V: Visitor + ?Sized>(before: &V, block: StyleBlock, after: &V) -> bool {
    exists|opened: &V, with_items: &V|
        #![trigger before.token_visited(block.opening, opened), items_visited(opened, block.items@, with_items)]
        before.token_visited(block.opening, opened) && items_visited(opened, block.items@, with_items)
            && token_opt_visited(with_items, block.closing, after)
}

/// The name, then each value.
pub open spec fn declaration_walked<V: Visitor + ?Sized>(
    before: &V,
    declaration: Declaration,
    after: &V,
) -> bool {
    exists|named: &V|
        #[trigger] before.token_visited(declaration.name, named) && values_visited(
            named,
            declaration.value@,
            after,
        )
}

/// The opening token, each value, then the closing token if any.
pub open spec fn simple_block_walked<V: Visitor + ?Sized>(
    before: &V,
    block: SimpleBlock,
    after: &V,
) -> bool {
    exists|opened: &V, with_values: &V|
        #![trigger before.token_visited(block.opening, opened), values_visited(opened, block.values@, with_values)]
        before.token_visited(block.opening, opened) && values_visited(opened, block.values@, with_values)
            && token_opt_visited(with_values, block.closing, after)
}

/// The name token, each argument value, then the closing token if any.
pub open spec fn function_walked<V: Visitor + ?Sized>(before: &V, function: Function, after: &V) -> bool {
    exists|named: &V, with_values: &V|
        #![trigger before.token_visited(function.name, named), values_visited(named, function.values@, with_values)]
        before.token_visited(function.name, named) && values_visited(named, function.values@, with_values)
            && token_opt_visited(with_values, function.closing, after)
}

proof fn lemma_rules_step<V: Visitor + ?Sized>(before: &V, rules: Seq<Rule>, mid: &V, after: &V)
    requires
        rules.len() > 0,
        rules_visited(before, rules.drop_last(), mid),
        mid.rule_visited(rules.last(), after),
    ensures
        rules_visited(before, rules, after),
{
}

proof fn lemma_values_step<V: Visitor + ?Sized>(
    before: &V,
    values: Seq<ComponentValue>,
    mid: &V,
    after: &V,
)
    requires
        values.len() > 0,
        values_visited(before, values.drop_last(), mid),
        mid.component_value_visited(values.last(), after),
    ensures
        values_visited(before, values, after),
{
}

proof fn lemma_items_step<V: Visitor + ?Sized>(
    before: &V,
    items: Seq<StyleBlockItem>,
    mid: &V,
    after: &V,
)
    requires
        items.len() > 0,
        items_visited(before, items.drop_last(), mid),
        mid.style_block_item_visited(items.last(), after),
    ensures
        items_visited(before, items, after),
{
}

/// Visits each value, in order.
fn visit_values<V: Visitor + ?Sized>(visitor: &mut V, values: &Vec<ComponentValue>)
    ensures
        values_visited(old(visitor), values@, final(visitor)),
{
    let ghost start: &V = &*visitor;
    let mut i: usize = 0;
    while i < values.len()
        invariant
            i <= values.len(),
            values_visited(start, values@.take(i as int), visitor),
        decreases values.len() - i,
    {
        let ghost prev: &V = &*visitor;
        visitor.visit_component_value(&values[i]);
        proof {
            let done = values@.take(i + 1);
            assert(done.drop_last() =~= values@.take(i as int));
            lemma_values_step(start, done, prev, visitor);
        }
        i = i + 1;
    }
    proof {
        assert(values@.take(i as int) =~= values@);
    }
}

/// Visits each rule of the stylesheet, in order.
pub fn walk_stylesheet<V: Visitor + ?Sized>(visitor: &mut V, stylesheet: &Stylesheet)
    ensures
        rules_visited(old(visitor), stylesheet.rule_list@, final(visitor)),
{
    let ghost start: &V = &*visitor;
    let mut i: usize = 0;
    while i < stylesheet.rule_list.len()
        invariant
            i <= stylesheet.rule_list.len(),
            rules_visited(start, stylesheet.rule_list@.take(i as int), visitor),
        decreases stylesheet.rule_list.len() - i,
    {
        let ghost prev: &V = &*visitor;
        visitor.visit_rule(&stylesheet.rule_list[i]);
        proof {
            let done = stylesheet.rule_list@.take(i + 1);
            assert(done.drop_last() =~= stylesheet.rule_list@.take(i as int));
            lemma_rules_step(start, done, prev, visitor);
        }
        i = i + 1;
    }
    proof {
        assert(stylesheet.rule_list@.take(i as int) =~= stylesheet.rule_list@);
    }
}

/// Visits the at-rule or qualified rule inside a rule.
pub fn walk_rule<V: Visitor + ?Sized>(visitor: &mut V, rule: &Rule)
    ensures
        match rule {
            Rule::AT_RULE(at_rule) => old(visitor).at_rule_visited(*at_rule, final(visitor)),
            Rule::QUALIFIED_RULE(q) => old(visitor).qualified_rule_visited(*q, final(visitor)),
        },
{
    match rule {
        Rule::AT_RULE(at_rule) => visitor.visit_at_rule(at_rule),
        Rule::QUALIFIED_RULE(rule) => visitor.visit_qualified_rule(rule),
    }
}

/// Visits an at-rule's name, each prelude value, then its block.
pub fn walk_at_rule<V: Visitor + ?Sized>(visitor: &mut V, at_rule: &AtRule)
    ensures
        at_rule_walked(old(visitor), *at_rule, final(visitor)),
{
    let ghost start: &V = &*visitor;
    visitor.visit_token(&at_rule.name);
    let ghost named: &V = &*visitor;
    visit_values(visitor, &at_rule.prelude);
    let ghost with_prelude: &V = &*visitor;
    if let Some(block) = &at_rule.block {
        visitor.visit_simple_block(block);
    }
    assert(simple_block_opt_visited(with_prelude, at_rule.block, visitor));
    assert(start.token_visited(at_rule.name, named));
    assert(values_visited(named, at_rule.prelude@, with_prelude));
}

/// Visits each prelude value of a qualified rule, then its style block.
pub fn walk_qualified_rule<V: Visitor + ?Sized>(visitor: &mut V, rule: &QualifiedRule)
    ensures
        qualified_rule_walked(old(visitor), *rule, final(visitor)),
{
    let ghost start: &V = &*visitor;
    visit_values(visitor, &rule.prelude);
    let ghost with_prelude: &V = &*visitor;
    if let Some(block) = &rule.block {
        visitor.visit_style_block(block);
    }
    assert(style_block_opt_visited(with_prelude, rule.block, visitor));
    assert(values_visited(start, rule.prelude@, with_prelude));
}

/// Visits the opening token, each item, then the closing token of a style block.
pub fn walk_style_block<V: Visitor + ?Sized>(visitor: &mut V, block: &StyleBlock)
    ensures
        style_block_walked(old(visitor), *block, final(visitor)),
{
    let ghost start: &V = &*visitor;
    visitor.visit_token(&block.opening);
    let ghost opened: &V = &*visitor;
    let mut i: usize = 0;
    while i < block.items.len()
        invariant
            i <= block.items.len(),
            items_visited(opened, block.items@.take(i as int), visitor),
        decreases block.items.len() - i,
    {
        let ghost prev: &V = &*visitor;
        visitor.visit_style_block_item(&block.items[i]);
        proof {
            let done = block.items@.take(i + 1);
            assert(done.drop_last() =~= block.items@.take(i as int));
            lemma_items_step(opened, done, prev, visitor);
        }
        i = i + 1;
    }
    proof {
        assert(block.items@.take(i as int) =~= block.items@);
    }
    let ghost with_items: &V = &*visitor;
    if let Some(closing) = &block.closing {
        visitor.visit_token(closing);
    }
    assert(token_opt_visited(with_items, block.closing, visitor));
    assert(start.token_visited(block.opening, opened));
    assert(items_visited(opened, block.items@, with_items));
}

/// Visits the declaration or at-rule inside a style block item.
pub fn walk_style_block_item<V: Visitor + ?Sized>(visitor: &mut V, item: &StyleBlockItem)
    ensures
        match item {
            StyleBlockItem::DECLARATION(d) => old(visitor).declaration_visited(*d, final(visitor)),
            StyleBlockItem::AT_RULE(a) => old(visitor).at_rule_visited(*a, final(visitor)),
        },
{
    match item {
        StyleBlockItem::DECLARATION(declaration) => visitor.visit_declaration(declaration),
        StyleBlockItem::AT_RULE(at_rule) => visitor.visit_at_rule(at_rule),
    }
}

/// Visits a declaration's name, then each value.
pub fn walk_declaration<V: Visitor + ?Sized>(visitor: &mut V, declaration: &Declaration)
    ensures
        declaration_walked(old(visitor), *declaration, final(visitor)),
{
    let ghost start: &V = &*visitor;
    visitor.visit_token(&declaration.name);
    let ghost named: &V = &*visitor;
    visit_values(visitor, &declaration.value);
    assert(start.token_visited(declaration.name, named));
}

/// Visits the token, block or function inside a component value.
pub fn walk_component_value<V: Visitor + ?Sized>(visitor: &mut V, value: &ComponentValue)
    ensures
        match value {
            ComponentValue::PRESERVED(t) => old(visitor).token_visited(*t, final(visitor)),
            ComponentValue::SIMPLE_BLOCK(b) => old(visitor).simple_block_visited(*b, final(visitor)),
            ComponentValue::FUNCTION(f) => old(visitor).function_visited(*f, final(visitor)),
        },
{
    match value {
        ComponentValue::PRESERVED(token) => visitor.visit_token(token),
        ComponentValue::SIMPLE_BLOCK(block) => visitor.visit_simple_block(block),
        ComponentValue::FUNCTION(function) => visitor.visit_function(function),
    }
}

/// Visits a block's opening token, each value, then its closing token.
pub fn walk_simple_block<V: Visitor + ?Sized>(visitor: &mut V, block: &SimpleBlock)
    ensures
        simple_block_walked(old(visitor), *block, final(visitor)),
{
    let ghost start: &V = &*visitor;
    visitor.visit_token(&block.opening);
    let ghost opened: &V = &*visitor;
    visit_values(visitor, &block.values);
    let ghost with_values: &V = &*visitor;
    if let Some(closing) = &block.closing {
        visitor.visit_token(closing);
    }
    assert(token_opt_visited(with_values, block.closing, visitor));
    assert(start.token_visited(block.opening, opened));
    assert(values_visited(opened, block.values@, with_values));
}

/// Visits a function's name token, each argument value, then its closing token.
pub fn walk_function<V: Visitor + ?Sized>(visitor: &mut V, function: &Function)
    ensures
        function_walked(old(visitor), *function, final(visitor)),
{
    let ghost start: &V = &*visitor;
    visitor.visit_token(&function.name);
    let ghost named: &V = &*visitor;
    visit_values(visitor, &function.values);
    let ghost with_values: &V = &*visitor;
    if let Some(closing) = &function.closing {
        visitor.visit_token(closing);
    }
    assert(token_opt_visited(with_values, function.closing, visitor));
    assert(start.token_visited(function.name, named));
    assert(values_visited(named, function.values@, with_values));
}

} // verus!
