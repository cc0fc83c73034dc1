use css_parser_core::lexer::Lexer;
use css_parser_core::parser::{Declaration, Parser, Rule, StyleBlockItem};
use css_parser_core::values::{analyze_declaration, PropertyGrammarRegistry};
use css_parser_core::resolver::{
    resolve_declaration_value, CustomPropertyEnvironment, ResolutionResult,
    VariableResolutionErrorReason,
};

fn declarations(source: &str) -> Vec<Declaration> {
    let mut lexer = Lexer::new(source);
    let tokens = lexer.scan();
    let mut parser = Parser::new(tokens);
    let result = parser.parse_stylesheet();
    assert!(result.errors.is_empty(), "{:?}", result.errors);

    result
        .value
        .rule_list
        .into_iter()
        .flat_map(|rule| match rule {
            Rule::QUALIFIED_RULE(rule) => rule
                .block
                .into_iter()
                .flat_map(|block| block.items)
                .filter_map(|item| match item {
                    StyleBlockItem::DECLARATION(declaration) => Some(declaration),
                    StyleBlockItem::AT_RULE(_) => None,
                })
                .collect(),
            Rule::AT_RULE(_) => Vec::new(),
        })
        .collect()
}

fn declaration<'a>(source: &str, declarations: &'a [Declaration], name: &str) -> &'a Declaration {
    declarations
        .iter()
        .find(|declaration| {
            source.get(declaration.name.span.0..=declaration.name.span.1) == Some(name)
        })
        .expect("declaration not found")
}

#[test]
fn propagates_fallbacks_and_cycles_from_variable_resolution() {
    let fallback_source = ".a{width:calc(var(--missing, 2px) * 2);} ";
    let fallback_parsed = declarations(fallback_source);
    let fallback_declaration = declaration(fallback_source, &fallback_parsed, "width");
    let empty = CustomPropertyEnvironment::new();
    assert!(matches!(
        resolve_declaration_value(fallback_source, fallback_declaration, &empty),
        ResolutionResult::Resolved(_)
    ));

    let cycle_source = ":root{--a:var(--b);--b:var(--a)}.a{width:var(--a)}";
    let cycle_declarations = declarations(cycle_source);
    let mut cycle_resolver = CustomPropertyEnvironment::new();
    cycle_resolver.set("--a", cycle_declarations[0].value.clone());
    cycle_resolver.set("--b", cycle_declarations[1].value.clone());
    let width = declaration(cycle_source, &cycle_declarations, "width");
    let ResolutionResult::Invalid(errors) =
        resolve_declaration_value(cycle_source, width, &cycle_resolver)
    else {
        panic!("expected cycle to be rejected");
    };
    assert!(errors
        .iter()
        .any(|error| error.reason == VariableResolutionErrorReason::CYCLE));
}

#[test]
fn reports_property_errors_without_rejecting_unknown_properties() {
    let source = ".a{opacity:2px;unknown-property:custom-value;} ";
    let parsed = declarations(source);
    let registry = PropertyGrammarRegistry::default();

    let opacity = declaration(source, &parsed, "opacity");
    assert!(analyze_declaration(source, opacity, &registry).is_err());

    let unknown = declaration(source, &parsed, "unknown-property");
    assert!(analyze_declaration(source, unknown, &registry).is_ok());
}

#[test]
fn validates_background_color_with_the_color_grammar() {
    let registry = PropertyGrammarRegistry::default();
    for (source, expected) in [
        (".a{background-color:#0f08;} ", true),
        (".a{background-color:12px;} ", false),
    ] {
        let parsed = declarations(source);
        let background = declaration(source, &parsed, "background-color");
        assert_eq!(
            analyze_declaration(source, background, &registry).is_ok(),
            expected,
            "{source}"
        );
    }
}
