use css_parser_core::parser::{
    walk_at_rule, walk_component_value, walk_declaration, walk_function, walk_qualified_rule,
    walk_rule, walk_simple_block, walk_style_block, walk_style_block_item, walk_stylesheet,
    AstPrinter, AtRule, ComponentValue, Declaration, Function, ParseErrorReason, Parser,
    QualifiedRule, Rule, SimpleBlock, StyleBlock, StyleBlockItem, Stylesheet, TokenData, Visitor,
};
use css_parser_core::selector::SelectorList;
use css_parser_core::token::{Token, TokenKind};
use css_parser_core::types::LexerSpan;


fn token(kind: TokenKind) -> Token {
    Token::new(kind, 1, LexerSpan(0, 0))
}

#[derive(Default)]
struct CountingVisitor {
    stylesheets:                usize,
    rules:                      usize,
    at_rules:                   usize,
    qualified_rules:            usize,
    style_blocks:               usize,
    style_block_items:          usize,
    declarations:               usize,
    component_values:           usize,
    simple_blocks:              usize,
    functions:                  usize,
    tokens:                     usize,
}

impl Visitor for CountingVisitor {
    fn visit_stylesheet(&mut self, stylesheet: &Stylesheet) {
        self.stylesheets += 1;
        walk_stylesheet(self, stylesheet);
    }

    fn visit_rule(&mut self, rule: &Rule) {
        self.rules += 1;
        walk_rule(self, rule);
    }

    fn visit_at_rule(&mut self, at_rule: &AtRule) {
        self.at_rules += 1;
        walk_at_rule(self, at_rule);
    }

    fn visit_qualified_rule(&mut self, rule: &QualifiedRule) {
        self.qualified_rules += 1;
        walk_qualified_rule(self, rule);
    }

    fn visit_style_block(&mut self, block: &StyleBlock) {
        self.style_blocks += 1;
        walk_style_block(self, block);
    }

    fn visit_style_block_item(&mut self, item: &StyleBlockItem) {
        self.style_block_items += 1;
        walk_style_block_item(self, item);
    }

    fn visit_declaration(&mut self, declaration: &Declaration) {
        self.declarations += 1;
        walk_declaration(self, declaration);
    }

    fn visit_component_value(&mut self, value: &ComponentValue) {
        self.component_values += 1;
        walk_component_value(self, value);
    }

    fn visit_simple_block(&mut self, block: &SimpleBlock) {
        self.simple_blocks += 1;
        walk_simple_block(self, block);
    }

    fn visit_function(&mut self, function: &Function) {
        self.functions += 1;
        walk_function(self, function);
    }

    fn visit_token(&mut self, _token: &TokenData) {
        self.tokens += 1;
    }
}

#[test]
fn parses_a_qualified_rule_with_a_simple_block() {
    let tokens = vec![
        token(TokenKind::IDENT),
        token(TokenKind::CURLY_OPEN),
        token(TokenKind::IDENT),
        token(TokenKind::COLON),
        token(TokenKind::NUMBER),
        token(TokenKind::SEMICOLON),
        token(TokenKind::CURLY_CLOSE),
        token(TokenKind::EOF),
    ];
    let mut parser = Parser::new(&tokens);

    let result = parser.parse_stylesheet();

    assert!(result.errors.is_empty());
    assert_eq!(result.value.rule_list.len(), 1);
    let Rule::QUALIFIED_RULE(rule) = &result.value.rule_list[0] else {
        panic!("expected a qualified rule");
    };
    assert_eq!(rule.prelude.len(), 1);
    assert!(rule.block.is_some());
    assert_eq!(rule.block.as_ref().unwrap().items.len(), 1);
}

#[test]
fn parses_selectors_when_constructing_a_qualified_rule() {
    let tokens = vec![
        token(TokenKind::DELIM('.')),
        token(TokenKind::IDENT),
        token(TokenKind::WHITESPACE),
        token(TokenKind::DELIM('>')),
        token(TokenKind::WHITESPACE),
        token(TokenKind::ID_HASH),
        token(TokenKind::CURLY_OPEN),
        token(TokenKind::CURLY_CLOSE),
        token(TokenKind::EOF),
    ];
    let mut parser = Parser::new(&tokens);

    let result = parser.parse_stylesheet();

    assert!(result.errors.is_empty());
    let Rule::QUALIFIED_RULE(rule) = &result.value.rule_list[0] else {
        panic!("expected a qualified rule");
    };
    assert_eq!(rule.selectors.selectors.len(), 1);
    assert_eq!(rule.selectors.selectors[0].components.len(), 2);
    assert!(matches!(
        rule.selectors.selectors[0].components[0]
            .unit
            .compound
            .as_ref()
            .unwrap()
            .subclass_selectors[0],
        css_parser_core::selector::SubclassSelector::CLASS(_)
    ));
    assert!(matches!(
        rule.selectors.selectors[0].components[1].combinator,
        Some(css_parser_core::selector::Combinator::CHILD(_))
    ));
}

#[test]
fn merges_selector_errors_into_stylesheet_errors() {
    let tokens = vec![
        token(TokenKind::IDENT),
        token(TokenKind::COMMA),
        token(TokenKind::CURLY_OPEN),
        token(TokenKind::CURLY_CLOSE),
        token(TokenKind::EOF),
    ];
    let mut parser = Parser::new(&tokens);

    let result = parser.parse_stylesheet();

    assert_eq!(result.errors.len(), 1);
    let Rule::QUALIFIED_RULE(rule) = &result.value.rule_list[0] else {
        panic!("expected a qualified rule");
    };
    assert_eq!(rule.selectors.selectors.len(), 1);
}

#[test]
fn keeps_non_curly_prelude_blocks_outside_the_rule_block() {
    let tokens = vec![
        token(TokenKind::IDENT),
        token(TokenKind::BRACKET_OPEN),
        token(TokenKind::IDENT),
        token(TokenKind::BRACKET_CLOSE),
        token(TokenKind::CURLY_OPEN),
        token(TokenKind::IDENT),
        token(TokenKind::COLON),
        token(TokenKind::NUMBER),
        token(TokenKind::CURLY_CLOSE),
        token(TokenKind::EOF),
    ];
    let mut parser = Parser::new(&tokens);

    let result = parser.parse_stylesheet();

    assert!(result.errors.is_empty());
    let Rule::QUALIFIED_RULE(rule) = &result.value.rule_list[0] else {
        panic!("expected a qualified rule");
    };
    assert_eq!(rule.prelude.len(), 2);
    assert_eq!(rule.block.as_ref().unwrap().items.len(), 1);
}

#[test]
fn parses_nested_functions_as_component_values() {
    let tokens = vec![
        token(TokenKind::PAREN_OPEN),
        token(TokenKind::FUNCTION),
        token(TokenKind::NUMBER),
        token(TokenKind::PAREN_CLOSE),
        token(TokenKind::PAREN_CLOSE),
        token(TokenKind::EOF),
    ];
    let mut parser = Parser::new(&tokens);

    let ComponentValue::SIMPLE_BLOCK(block) = parser.parse_component_value().unwrap() else {
        panic!("expected a simple block");
    };
    let ComponentValue::FUNCTION(function) = &block.values[0] else {
        panic!("expected a function component value");
    };
    assert_eq!(function.values.len(), 1);
    assert!(function.closing.is_some());
}

#[test]
fn reports_missing_block_closers_without_panicking() {
    let tokens = vec![
        token(TokenKind::IDENT),
        token(TokenKind::CURLY_OPEN),
        token(TokenKind::IDENT),
        token(TokenKind::COLON),
        token(TokenKind::EOF),
    ];
    let mut parser = Parser::new(&tokens);

    let result = parser.parse_stylesheet();

    assert_eq!(result.errors.len(), 1);
    assert_eq!(result.errors[0].reason, ParseErrorReason::UNEXPECTED_EOF);
    assert!(result.value.rule_list.len() == 1);
}

#[test]
fn parses_declarations_and_marks_important_values() {
    let tokens = vec![
        token(TokenKind::IDENT),
        token(TokenKind::COLON),
        token(TokenKind::NUMBER),
        token(TokenKind::WHITESPACE),
        token(TokenKind::IMPORTANT_TOKEN),
        token(TokenKind::SEMICOLON),
        token(TokenKind::IDENT),
        token(TokenKind::COLON),
        token(TokenKind::FUNCTION),
        token(TokenKind::NUMBER),
        token(TokenKind::PAREN_CLOSE),
        token(TokenKind::EOF),
    ];
    let mut parser = Parser::new(&tokens);

    let result = parser.parse_declaration_list();

    assert!(result.errors.is_empty());
    assert_eq!(result.value.len(), 2);
    assert!(result.value[0].important);
    assert_eq!(result.value[0].value.len(), 1);
    assert!(matches!(
        result.value[1].value[0],
        ComponentValue::FUNCTION(_)
    ));
}

#[test]
fn declaration_recovery_continues_after_a_missing_colon() {
    let tokens = vec![
        token(TokenKind::IDENT),
        token(TokenKind::NUMBER),
        token(TokenKind::SEMICOLON),
        token(TokenKind::IDENT),
        token(TokenKind::COLON),
        token(TokenKind::NUMBER),
        token(TokenKind::EOF),
    ];
    let mut parser = Parser::new(&tokens);

    let result = parser.parse_declaration_list();

    assert_eq!(result.errors.len(), 1);
    assert_eq!(result.value.len(), 1);
}

#[test]
fn style_block_skips_whitespace_and_empty_declarations() {
    let tokens = vec![
        token(TokenKind::IDENT),
        token(TokenKind::CURLY_OPEN),
        token(TokenKind::WHITESPACE),
        token(TokenKind::SEMICOLON),
        token(TokenKind::IDENT),
        token(TokenKind::COLON),
        token(TokenKind::SEMICOLON),
        token(TokenKind::WHITESPACE),
        token(TokenKind::CURLY_CLOSE),
        token(TokenKind::EOF),
    ];
    let mut parser = Parser::new(&tokens);

    let result = parser.parse_stylesheet();

    assert!(result.errors.is_empty());
    let Rule::QUALIFIED_RULE(rule) = &result.value.rule_list[0] else {
        panic!("expected a qualified rule");
    };
    let block = rule.block.as_ref().unwrap();
    assert_eq!(block.items.len(), 1);
    let StyleBlockItem::DECLARATION(declaration) = &block.items[0] else {
        panic!("expected a declaration");
    };
    assert!(declaration.value.is_empty());
}

#[test]
fn style_block_accepts_at_rules_between_declarations() {
    let tokens = vec![
        token(TokenKind::IDENT),
        token(TokenKind::CURLY_OPEN),
        token(TokenKind::AT_KEYWORD),
        token(TokenKind::IDENT),
        token(TokenKind::SEMICOLON),
        token(TokenKind::IDENT),
        token(TokenKind::COLON),
        token(TokenKind::NUMBER),
        token(TokenKind::CURLY_CLOSE),
        token(TokenKind::EOF),
    ];
    let mut parser = Parser::new(&tokens);

    let result = parser.parse_stylesheet();

    assert!(result.errors.is_empty());
    let Rule::QUALIFIED_RULE(rule) = &result.value.rule_list[0] else {
        panic!("expected a qualified rule");
    };
    let items = &rule.block.as_ref().unwrap().items;
    assert!(matches!(items[0], StyleBlockItem::AT_RULE(_)));
    assert!(matches!(items[1], StyleBlockItem::DECLARATION(_)));
}

#[test]
fn style_block_preserves_nested_value_components() {
    let tokens = vec![
        token(TokenKind::IDENT),
        token(TokenKind::CURLY_OPEN),
        token(TokenKind::IDENT),
        token(TokenKind::COLON),
        token(TokenKind::FUNCTION),
        token(TokenKind::NUMBER),
        token(TokenKind::PAREN_CLOSE),
        token(TokenKind::BRACKET_OPEN),
        token(TokenKind::IDENT),
        token(TokenKind::BRACKET_CLOSE),
        token(TokenKind::CURLY_CLOSE),
        token(TokenKind::EOF),
    ];
    let mut parser = Parser::new(&tokens);

    let result = parser.parse_stylesheet();

    assert!(result.errors.is_empty());
    let Rule::QUALIFIED_RULE(rule) = &result.value.rule_list[0] else {
        panic!("expected a qualified rule");
    };
    let StyleBlockItem::DECLARATION(declaration) = &rule.block.as_ref().unwrap().items[0]
    else {
        panic!("expected a declaration");
    };
    assert!(matches!(declaration.value[0], ComponentValue::FUNCTION(_)));
    assert!(matches!(
        declaration.value[1],
        ComponentValue::SIMPLE_BLOCK(_)
    ));
}

#[test]
fn style_block_recovers_from_unsupported_top_level_content() {
    let tokens = vec![
        token(TokenKind::IDENT),
        token(TokenKind::CURLY_OPEN),
        token(TokenKind::DELIM('&')),
        token(TokenKind::IDENT),
        token(TokenKind::SEMICOLON),
        token(TokenKind::IDENT),
        token(TokenKind::COLON),
        token(TokenKind::NUMBER),
        token(TokenKind::CURLY_CLOSE),
        token(TokenKind::EOF),
    ];
    let mut parser = Parser::new(&tokens);

    let result = parser.parse_stylesheet();

    assert_eq!(result.errors.len(), 1);
    let Rule::QUALIFIED_RULE(rule) = &result.value.rule_list[0] else {
        panic!("expected a qualified rule");
    };
    assert_eq!(rule.block.as_ref().unwrap().items.len(), 1);
}

#[test]
fn style_block_reports_an_unclosed_block_at_eof() {
    let tokens = vec![
        token(TokenKind::IDENT),
        token(TokenKind::CURLY_OPEN),
        token(TokenKind::IDENT),
        token(TokenKind::COLON),
        token(TokenKind::NUMBER),
        token(TokenKind::EOF),
    ];
    let mut parser = Parser::new(&tokens);

    let result = parser.parse_stylesheet();

    assert_eq!(result.errors.len(), 1);
    assert_eq!(result.errors[0].reason, ParseErrorReason::UNEXPECTED_EOF);
    let Rule::QUALIFIED_RULE(rule) = &result.value.rule_list[0] else {
        panic!("expected a qualified rule");
    };
    assert!(rule.block.as_ref().unwrap().closing.is_none());
}

#[test]
fn preserves_unmatched_closing_tokens_and_continues_after_the_declaration() {
    let tokens = vec![
        token(TokenKind::IDENT),
        token(TokenKind::CURLY_OPEN),
        token(TokenKind::IDENT),
        token(TokenKind::COLON),
        token(TokenKind::PAREN_CLOSE),
        token(TokenKind::SEMICOLON),
        token(TokenKind::IDENT),
        token(TokenKind::COLON),
        token(TokenKind::NUMBER),
        token(TokenKind::CURLY_CLOSE),
        token(TokenKind::EOF),
    ];
    let mut parser = Parser::new(&tokens);

    let result = parser.parse_stylesheet();

    assert_eq!(result.errors.len(), 1);
    let Rule::QUALIFIED_RULE(rule) = &result.value.rule_list[0] else {
        panic!("expected a qualified rule");
    };
    let items = &rule.block.as_ref().unwrap().items;
    assert_eq!(items.len(), 2);
    let StyleBlockItem::DECLARATION(first) = &items[0] else {
        panic!("expected the first item to be a declaration");
    };
    assert!(matches!(
        first.value[0],
        ComponentValue::PRESERVED(TokenData {
            kind: TokenKind::PAREN_CLOSE,
            ..
        })
    ));
    assert!(matches!(items[1], StyleBlockItem::DECLARATION(_)));
}

#[test]
fn reports_unterminated_function_without_fabricating_a_closing_token() {
    let tokens = vec![
        token(TokenKind::IDENT),
        token(TokenKind::CURLY_OPEN),
        token(TokenKind::IDENT),
        token(TokenKind::COLON),
        token(TokenKind::FUNCTION),
        token(TokenKind::NUMBER),
        token(TokenKind::EOF),
    ];
    let mut parser = Parser::new(&tokens);

    let result = parser.parse_stylesheet();

    assert_eq!(result.errors.len(), 1);
    let Rule::QUALIFIED_RULE(rule) = &result.value.rule_list[0] else {
        panic!("expected a qualified rule");
    };
    let StyleBlockItem::DECLARATION(declaration) = &rule.block.as_ref().unwrap().items[0]
    else {
        panic!("expected a declaration");
    };
    let ComponentValue::FUNCTION(function) = &declaration.value[0] else {
        panic!("expected a function value");
    };
    assert!(function.closing.is_none());
}

#[test]
fn reports_independent_block_errors_separately() {
    let tokens = vec![
        token(TokenKind::IDENT),
        token(TokenKind::CURLY_OPEN),
        token(TokenKind::DELIM('&')),
        token(TokenKind::SEMICOLON),
        token(TokenKind::DELIM('%')),
        token(TokenKind::SEMICOLON),
        token(TokenKind::IDENT),
        token(TokenKind::COLON),
        token(TokenKind::NUMBER),
        token(TokenKind::CURLY_CLOSE),
        token(TokenKind::EOF),
    ];
    let mut parser = Parser::new(&tokens);

    let result = parser.parse_stylesheet();

    assert_eq!(result.errors.len(), 2);
    let Rule::QUALIFIED_RULE(rule) = &result.value.rule_list[0] else {
        panic!("expected a qualified rule");
    };
    assert_eq!(rule.block.as_ref().unwrap().items.len(), 1);
}

#[test]
fn retains_declarations_after_recovering_from_invalid_block_content() {
    let tokens = vec![
        token(TokenKind::IDENT),
        token(TokenKind::CURLY_OPEN),
        token(TokenKind::DELIM('&')),
        token(TokenKind::IDENT),
        token(TokenKind::COLON),
        token(TokenKind::NUMBER),
        token(TokenKind::SEMICOLON),
        token(TokenKind::IDENT),
        token(TokenKind::COLON),
        token(TokenKind::NUMBER),
        token(TokenKind::CURLY_CLOSE),
        token(TokenKind::EOF),
    ];
    let mut parser = Parser::new(&tokens);

    let result = parser.parse_stylesheet();

    assert_eq!(result.errors.len(), 1);
    let Rule::QUALIFIED_RULE(rule) = &result.value.rule_list[0] else {
        panic!("expected a qualified rule");
    };
    assert_eq!(rule.block.as_ref().unwrap().items.len(), 1);
    assert!(matches!(
        rule.block.as_ref().unwrap().items[0],
        StyleBlockItem::DECLARATION(_)
    ));
}

#[test]
fn visitor_walks_each_ast_node_and_token_once() {
    let data = |kind| TokenData::from(&token(kind));
    let preserved = ComponentValue::PRESERVED(data(TokenKind::IDENT));
    let function = ComponentValue::FUNCTION(Function {
        name: data(TokenKind::FUNCTION),
        values: vec![preserved.clone()],
        closing: Some(data(TokenKind::PAREN_CLOSE)),
    });
    let value_block = ComponentValue::SIMPLE_BLOCK(SimpleBlock {
        opening: data(TokenKind::BRACKET_OPEN),
        values: vec![preserved.clone()],
        closing: Some(data(TokenKind::BRACKET_CLOSE)),
    });
    let declaration = Declaration {
        name: data(TokenKind::IDENT),
        value: vec![function, value_block],
        important: false,
    };
    let at_rule = AtRule {
        name: data(TokenKind::AT_KEYWORD),
        prelude: vec![preserved.clone()],
        block: Some(SimpleBlock {
            opening: data(TokenKind::CURLY_OPEN),
            values: vec![preserved],
            closing: Some(data(TokenKind::CURLY_CLOSE)),
        }),
    };
    let stylesheet = Stylesheet {
        rule_list: vec![Rule::QUALIFIED_RULE(QualifiedRule {
            prelude: vec![ComponentValue::PRESERVED(data(TokenKind::IDENT))],
            selectors: SelectorList {
                selectors: Vec::new(),
            },
            block: Some(StyleBlock {
                opening: data(TokenKind::CURLY_OPEN),
                items: vec![
                    StyleBlockItem::DECLARATION(declaration),
                    StyleBlockItem::AT_RULE(at_rule),
                ],
                closing: Some(data(TokenKind::CURLY_CLOSE)),
            }),
        })],
    };

    let mut visitor = CountingVisitor::default();
    visitor.visit_stylesheet(&stylesheet);

    assert_eq!(visitor.stylesheets, 1);
    assert_eq!(visitor.rules, 1);
    assert_eq!(visitor.at_rules, 1);
    assert_eq!(visitor.qualified_rules, 1);
    assert_eq!(visitor.style_blocks, 1);
    assert_eq!(visitor.style_block_items, 2);
    assert_eq!(visitor.declarations, 1);
    assert_eq!(visitor.component_values, 7);
    assert_eq!(visitor.simple_blocks, 2);
    assert_eq!(visitor.functions, 1);
    assert_eq!(visitor.tokens, 15);
}

#[test]
fn ast_printer_renders_the_ast_as_a_tree() {
    let tokens = vec![
        token(TokenKind::IDENT),
        token(TokenKind::CURLY_OPEN),
        token(TokenKind::IDENT),
        token(TokenKind::COLON),
        token(TokenKind::NUMBER),
        token(TokenKind::CURLY_CLOSE),
        token(TokenKind::EOF),
    ];
    let mut parser = Parser::new(&tokens);
    let result = parser.parse_stylesheet();

    let output = AstPrinter::render(&result.value);

    assert!(output.starts_with("Stylesheet\n"));
    assert!(output.contains("  (__ Rule::QUALIFIED_RULE\n"));
    assert!(output.contains("    (__ QualifiedRule\n"));
    assert!(output.contains("      (__ StyleBlock\n"));
    assert!(output.contains("          (__ Declaration (important=false)\n"));
    assert!(output.contains("              (__ Token::NUMBER"));
}
