use css_parser_core::lexer::Lexer;
use css_parser_core::parser::{
    AstPrinter, ComponentValue, Declaration, ParseErrorReason, Parser, Rule, StyleBlockItem,
};
use css_parser_core::resolver::{
    resolve_variables, CustomPropertyEnvironment, ResolutionResult, VariableResolver,
};
use css_parser_core::token::TokenKind;
use css_parser_core::types::LexerSpan;
use css_parser_core::values::{combine_units, comparable_units, UnitOperation, UnitOutcome};

fn kinds_spans_lines(source: &str) -> Vec<(TokenKind, LexerSpan, usize)> {
    let mut lexer = Lexer::new(source);
    lexer.scan().iter().map(|t| (t.kind, t.span, t.line)).collect()
}

fn style_declarations(source: &str) -> Vec<Declaration> {
    let mut lexer = Lexer::new(source);
    let tokens = lexer.scan();
    let mut parser = Parser::new(tokens);
    let result = parser.parse_stylesheet();
    let mut out = Vec::new();
    for rule in result.value.rule_list {
        if let Rule::QUALIFIED_RULE(rule) = rule {
            for item in rule.block.unwrap().items {
                if let StyleBlockItem::DECLARATION(d) = item {
                    out.push(d);
                }
            }
        }
    }
    out
}

fn value_kinds(values: &[ComponentValue]) -> Vec<Option<TokenKind>> {
    values
        .iter()
        .map(|v| match v {
            ComponentValue::PRESERVED(t) => Some(t.kind),
            _ => None,
        })
        .collect()
}

#[test]
fn scan_gives_each_lexeme_with_its_span_and_line() {
    assert_eq!(
        kinds_spans_lines("a{\n b: 1px}"),
        vec![
            (TokenKind::IDENT, LexerSpan(0, 0), 1),
            (TokenKind::CURLY_OPEN, LexerSpan(1, 1), 1),
            (TokenKind::WHITESPACE, LexerSpan(2, 3), 2),
            (TokenKind::IDENT, LexerSpan(4, 4), 2),
            (TokenKind::COLON, LexerSpan(5, 5), 2),
            (TokenKind::WHITESPACE, LexerSpan(6, 6), 2),
            (TokenKind::DIMENSION, LexerSpan(7, 9), 2),
            (TokenKind::CURLY_CLOSE, LexerSpan(10, 10), 2),
            (TokenKind::EOF, LexerSpan(11, 11), 2),
        ]
    );
}

#[test]
fn scan_spans_are_byte_offsets_of_code_points() {
    assert_eq!(
        kinds_spans_lines("é x"),
        vec![
            (TokenKind::IDENT, LexerSpan(0, 0), 1),
            (TokenKind::WHITESPACE, LexerSpan(2, 2), 1),
            (TokenKind::IDENT, LexerSpan(3, 3), 1),
            (TokenKind::EOF, LexerSpan(4, 4), 1),
        ]
    );
}

#[test]
fn scan_counts_the_line_breaks_inside_a_url() {
    assert_eq!(
        kinds_spans_lines("url(\n)"),
        vec![(TokenKind::URL, LexerSpan(0, 5), 2), (TokenKind::EOF, LexerSpan(6, 6), 2)]
    );
}

#[test]
fn scan_counts_the_line_breaks_inside_a_comment() {
    assert_eq!(
        kinds_spans_lines("/*\n*/a"),
        vec![(TokenKind::IDENT, LexerSpan(5, 5), 2), (TokenKind::EOF, LexerSpan(6, 6), 2)]
    );
}

#[test]
fn scan_skips_an_unterminated_comment_to_the_end() {
    assert_eq!(
        kinds_spans_lines("a /*b"),
        vec![
            (TokenKind::IDENT, LexerSpan(0, 0), 1),
            (TokenKind::WHITESPACE, LexerSpan(1, 1), 1),
            (TokenKind::EOF, LexerSpan(5, 5), 1),
        ]
    );
}

#[test]
fn scan_of_empty_input_is_only_eof() {
    assert_eq!(kinds_spans_lines(""), vec![(TokenKind::EOF, LexerSpan(0, 0), 1)]);
}

#[test]
fn important_declaration_drops_the_flag_and_the_whitespace_before_it() {
    let declarations = style_declarations("a{b: c !important ; d: e ;}");
    assert_eq!(declarations.len(), 2);
    assert!(declarations[0].important);
    assert_eq!(
        value_kinds(&declarations[0].value),
        vec![Some(TokenKind::WHITESPACE), Some(TokenKind::IDENT)]
    );
    assert!(!declarations[1].important);
    assert_eq!(
        value_kinds(&declarations[1].value),
        vec![
            Some(TokenKind::WHITESPACE),
            Some(TokenKind::IDENT),
            Some(TokenKind::WHITESPACE)
        ]
    );
}

#[test]
fn declaration_list_reports_each_skipped_token() {
    let mut lexer = Lexer::new("x: 1; 2; y z");
    let tokens = lexer.scan();
    let mut parser = Parser::new(tokens);
    let result = parser.parse_declaration_list();

    assert_eq!(result.value.len(), 1);
    assert_eq!(
        value_kinds(&result.value[0].value),
        vec![Some(TokenKind::WHITESPACE), Some(TokenKind::NUMBER)]
    );
    assert_eq!(result.errors.len(), 2);
    assert_eq!(result.errors[0].reason, ParseErrorReason::UNEXPECTED_TOKEN);
    assert_eq!(result.errors[0].span, LexerSpan(6, 6));
    assert_eq!(result.errors[1].reason, ParseErrorReason::UNEXPECTED_TOKEN);
    assert_eq!(result.errors[1].span, LexerSpan(11, 11));
}

#[test]
fn unclosed_block_reports_its_end_only_when_its_contents_reported_nothing() {
    let mut lexer = Lexer::new("b: (1]");
    let tokens = lexer.scan();
    let mut parser = Parser::new(tokens);
    let result = parser.parse_declaration_list();
    assert_eq!(result.errors.len(), 1);
    assert_eq!(result.errors[0].reason, ParseErrorReason::UNEXPECTED_TOKEN);
    assert_eq!(result.errors[0].span, LexerSpan(5, 5));

    let mut lexer = Lexer::new("b: (1");
    let tokens = lexer.scan();
    let mut parser = Parser::new(tokens);
    let result = parser.parse_declaration_list();
    assert_eq!(result.errors.len(), 1);
    assert_eq!(result.errors[0].reason, ParseErrorReason::UNEXPECTED_EOF);
    assert_eq!(result.errors[0].span, LexerSpan(5, 5));
}

#[test]
fn values_without_var_resolve_to_themselves() {
    let source = "a{width: calc(1px + 2%) red}";
    let declarations = style_declarations(source);
    let values = declarations[0].value.clone();
    let resolver = CustomPropertyEnvironment::new();

    let result = resolve_variables(source, &values, &resolver);

    let ResolutionResult::Resolved(resolved) = result else {
        panic!("expected resolution without errors");
    };
    assert_eq!(resolved, values);
}

#[test]
fn a_set_custom_property_is_looked_up_and_a_child_sees_its_parent() {
    let source = "a{--x: 1px}";
    let declarations = style_declarations(source);
    let mut parent = CustomPropertyEnvironment::new();
    parent.set("--x", declarations[0].value.clone());
    let child = CustomPropertyEnvironment::child_of(&parent);

    let expected = declarations[0].value.clone();
    assert_eq!(parent.resolve("--x"), Some(expected.as_slice()));
    assert_eq!(child.resolve("--x"), Some(expected.as_slice()));
    assert_eq!(child.resolve("--y"), None);
}

#[test]
fn an_empty_selector_between_commas_is_an_error_at_the_comma_that_ends_it() {
    let mut lexer = Lexer::new("a, , b{}");
    let tokens = lexer.scan();
    let mut parser = Parser::new(tokens);
    let result = parser.parse_stylesheet();

    let Rule::QUALIFIED_RULE(rule) = &result.value.rule_list[0] else {
        panic!("expected a qualified rule");
    };
    assert_eq!(rule.selectors.selectors.len(), 2);
    assert_eq!(result.errors.len(), 1);
    assert_eq!(result.errors[0].reason, ParseErrorReason::UNEXPECTED_EOF);
    assert_eq!(result.errors[0].span, LexerSpan(3, 3));
}

#[test]
fn printer_shows_the_selector_tree_in_place_of_the_prelude() {
    let mut lexer = Lexer::new("a.b{}");
    let tokens = lexer.scan();
    let mut parser = Parser::new(tokens);
    let result = parser.parse_stylesheet();

    let lines = [
        "Stylesheet",
        "  (__ Rule::QUALIFIED_RULE",
        "    (__ QualifiedRule",
        "      (__ SelectorList",
        "        (__ ComplexSelector",
        "          (__ ComplexSelectorComponent",
        "            (__ ComplexSelectorUnit",
        "              (__ CompoundSelector",
        "                (__ TypeSelector::QUALIFIED_NAME",
        "                  (__ QualifiedName",
        "                    (__ Token::IDENT (line=1, span=LexerSpan(0, 0))",
        "                (__ SubclassSelector::CLASS",
        "                  (__ Token::DELIM('.') (line=1, span=LexerSpan(1, 1))",
        "                  (__ Token::IDENT (line=1, span=LexerSpan(2, 2))",
        "      (__ StyleBlock",
        "        (__ Token::CURLY_OPEN (line=1, span=LexerSpan(3, 3))",
        "        (__ Token::CURLY_CLOSE (line=1, span=LexerSpan(4, 4))",
    ];
    let expected: String = lines.iter().map(|line| format!("{}\n", line)).collect();
    assert_eq!(AstPrinter::render(&result.value), expected);
}

#[derive(Default)]
struct OrderVisitor {
    kinds: Vec<TokenKind>,
}

impl css_parser_core::parser::Visitor for OrderVisitor {
    fn visit_stylesheet(&mut self, stylesheet: &css_parser_core::parser::Stylesheet) {
        css_parser_core::parser::walk_stylesheet(self, stylesheet);
    }
    fn visit_rule(&mut self, rule: &Rule) {
        css_parser_core::parser::walk_rule(self, rule);
    }
    fn visit_at_rule(&mut self, at_rule: &css_parser_core::parser::AtRule) {
        css_parser_core::parser::walk_at_rule(self, at_rule);
    }
    fn visit_qualified_rule(&mut self, rule: &css_parser_core::parser::QualifiedRule) {
        css_parser_core::parser::walk_qualified_rule(self, rule);
    }
    fn visit_style_block(&mut self, block: &css_parser_core::parser::StyleBlock) {
        css_parser_core::parser::walk_style_block(self, block);
    }
    fn visit_style_block_item(&mut self, item: &StyleBlockItem) {
        css_parser_core::parser::walk_style_block_item(self, item);
    }
    fn visit_declaration(&mut self, declaration: &Declaration) {
        css_parser_core::parser::walk_declaration(self, declaration);
    }
    fn visit_component_value(&mut self, value: &ComponentValue) {
        css_parser_core::parser::walk_component_value(self, value);
    }
    fn visit_simple_block(&mut self, block: &css_parser_core::parser::SimpleBlock) {
        css_parser_core::parser::walk_simple_block(self, block);
    }
    fn visit_function(&mut self, function: &css_parser_core::parser::Function) {
        css_parser_core::parser::walk_function(self, function);
    }
    fn visit_token(&mut self, token: &css_parser_core::parser::TokenData) {
        self.kinds.push(token.kind);
    }
}

#[test]
fn walks_visit_tokens_in_source_order() {
    let mut lexer = Lexer::new("a{b:f(1)}");
    let tokens = lexer.scan();
    let mut parser = Parser::new(tokens);
    let result = parser.parse_stylesheet();

    let mut visitor = OrderVisitor::default();
    css_parser_core::parser::Visitor::visit_stylesheet(&mut visitor, &result.value);
    assert_eq!(
        visitor.kinds,
        vec![
            TokenKind::IDENT,
            TokenKind::CURLY_OPEN,
            TokenKind::IDENT,
            TokenKind::FUNCTION,
            TokenKind::NUMBER,
            TokenKind::PAREN_CLOSE,
            TokenKind::CURLY_CLOSE,
        ]
    );
}

#[test]
fn a_child_environment_is_a_snapshot_of_its_parent() {
    let source = "a{--x: 1px; --y: 2px}";
    let declarations = style_declarations(source);
    let mut parent = CustomPropertyEnvironment::new();
    parent.set("--x", declarations[0].value.clone());
    let child = CustomPropertyEnvironment::child_of(&parent);
    parent.set("--y", declarations[1].value.clone());
    parent.set("--x", declarations[1].value.clone());

    let first = declarations[0].value.clone();
    assert_eq!(child.resolve("--x"), Some(first.as_slice()));
    assert_eq!(child.resolve("--y"), None);
}

#[test]
fn parsing_a_stylesheet_again_gives_nothing() {
    let mut lexer = Lexer::new("a{b:c} @x y;");
    let tokens = lexer.scan();
    let mut parser = Parser::new(tokens);
    let first = parser.parse_stylesheet();
    assert_eq!(first.value.rule_list.len(), 2);

    let second = parser.parse_stylesheet();
    assert!(second.value.rule_list.is_empty());
    assert!(second.errors.is_empty());
}

#[test]
fn tokens_of_a_clean_input_rebuild_it() {
    let source = "a.é{b: 10% \"s\" f(1)}";
    let mut lexer = Lexer::new(source);
    let tokens = lexer.scan();
    assert!(tokens.len() <= source.chars().count() + 1);
    let mut rebuilt = String::new();
    for token in &tokens[..tokens.len() - 1] {
        let LexerSpan(start, last) = token.span;
        assert!(source.is_char_boundary(start) && source.is_char_boundary(last));
        let end = last + source[last..].chars().next().unwrap().len_utf8();
        rebuilt.push_str(&source[start..end]);
    }
    assert_eq!(rebuilt, source);
    assert_eq!(tokens.last().unwrap().kind, TokenKind::EOF);
    assert_eq!(tokens.last().unwrap().span, LexerSpan(source.len(), source.len()));
}

fn unit(text: &str) -> Option<String> {
    Some(text.to_string())
}

#[test]
fn unit_rules_decide_folding() {
    let add = UnitOperation::AddOrSubtract;
    assert_eq!(combine_units(add, &unit("px"), &unit("px")), UnitOutcome::Fold(unit("px")));
    assert_eq!(combine_units(add, &unit("px"), &unit("pt")), UnitOutcome::Defer);
    assert_eq!(combine_units(add, &None, &unit("px")), UnitOutcome::Defer);
    assert_eq!(combine_units(add, &unit("em"), &unit("em")), UnitOutcome::Defer);
    let mul = UnitOperation::Multiply;
    assert_eq!(combine_units(mul, &unit("px"), &None), UnitOutcome::Fold(unit("px")));
    assert_eq!(combine_units(mul, &None, &unit("px")), UnitOutcome::Fold(unit("px")));
    assert_eq!(combine_units(mul, &None, &None), UnitOutcome::Fold(None));
    assert_eq!(combine_units(mul, &unit("px"), &unit("px")), UnitOutcome::Invalid);
    assert_eq!(combine_units(mul, &unit("%"), &unit("px")), UnitOutcome::Defer);
    let div = UnitOperation::Divide;
    assert_eq!(combine_units(div, &unit("px"), &None), UnitOutcome::Fold(unit("px")));
    assert_eq!(combine_units(div, &unit("px"), &unit("px")), UnitOutcome::Invalid);
    assert_eq!(combine_units(div, &unit("vw"), &None), UnitOutcome::Defer);
}

#[test]
fn comparable_units_need_one_unit_without_context() {
    assert!(comparable_units(&vec![unit("px"), unit("px"), unit("px")]));
    assert!(comparable_units(&vec![None, None]));
    assert!(comparable_units(&vec![]));
    assert!(!comparable_units(&vec![unit("px"), unit("pt")]));
    assert!(!comparable_units(&vec![unit("%"), unit("%")]));
    assert!(!comparable_units(&vec![None, unit("px")]));
}
