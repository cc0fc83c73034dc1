use css_parser_core::lexer::Lexer;
use css_parser_core::parser::{ComponentValue, Declaration, Parser, Rule, StyleBlockItem, TokenData};
use css_parser_core::resolver::{
    resolve_declaration_value, resolve_variables, CustomPropertyEnvironment, ResolutionResult,
    VariableResolutionError, VariableResolutionErrorReason, VariableResolver,
};
use css_parser_core::token::TokenKind;
use css_parser_core::types::LexerSpan;


fn declarations(source: &str) -> Vec<Declaration> {
    let mut lexer = Lexer::new(source);
    let tokens = lexer.scan();
    let mut parser = Parser::new(tokens);
    let result = parser.parse_stylesheet();

    result
        .value
        .rule_list
        .into_iter()
        .filter_map(|rule| match rule {
            Rule::QUALIFIED_RULE(rule) => rule.block,
            Rule::AT_RULE(_) => None,
        })
        .flat_map(|block| block.items)
        .filter_map(|item| match item {
            StyleBlockItem::DECLARATION(declaration) => Some(declaration),
            StyleBlockItem::AT_RULE(_) => None,
        })
        .collect()
}

fn resolver_for(source: &str) -> CustomPropertyEnvironment {
    let values: Vec<(String, Vec<ComponentValue>)> = declarations(source)
        .into_iter()
        .filter_map(|declaration| {
            let name = declaration.name.span;
            let LexerSpan(start, cursor) = name;
            let end = cursor + source[cursor..].chars().next()?.len_utf8();
            let name = source.get(start..end)?.to_string();
            name.starts_with("--").then_some((name, declaration.value))
        })
        .collect();

    let mut resolver = CustomPropertyEnvironment::new();
    for (name, value) in values {
        resolver.set(&name, value);
    }
    resolver
}

fn value_of(source: &str) -> Vec<ComponentValue> {
    declarations(source)
        .into_iter()
        .find(|declaration| {
            let LexerSpan(start, cursor) = declaration.name.span;
            let end = cursor + source[cursor..].chars().next().unwrap().len_utf8();
            source.get(start..end) == Some("width")
        })
        .unwrap()
        .value
}

#[test]
fn substitutes_a_custom_property_and_preserves_the_input() {
    let source = ":root{--gap:8px}.x{width:var(--gap)}";
    let declaration = declarations(source)
        .into_iter()
        .find(|declaration| {
            declaration
                .value
                .iter()
                .any(|value| matches!(value, ComponentValue::FUNCTION(_)))
        })
        .unwrap();
    let values = declaration.value.clone();
    let original = values.clone();
    let resolver = resolver_for(source);

    let result = resolve_declaration_value(source, &declaration, &resolver);

    assert_eq!(values, original);
    let ResolutionResult::Resolved(values) = result else {
        panic!("expected variable resolution to succeed");
    };
    assert!(matches!(
        values.as_slice(),
        [ComponentValue::PRESERVED(TokenData {
            kind: TokenKind::DIMENSION,
            ..
        })]
    ));
}

#[test]
fn uses_a_fallback_for_a_missing_custom_property() {
    let source = ".x{width:var(--missing,10px)}";
    let values = value_of(source);
    let resolver = resolver_for(source);

    let result = resolve_variables(source, &values, &resolver);

    let ResolutionResult::Resolved(values) = result else {
        panic!("expected fallback resolution to succeed");
    };
    assert!(matches!(
        values.as_slice(),
        [ComponentValue::PRESERVED(TokenData {
            kind: TokenKind::DIMENSION,
            ..
        })]
    ));
}

#[test]
fn resolves_variables_inside_functions() {
    let source = ":root{--gap:8px}.x{width:calc(var(--gap)*2)}";
    let values = value_of(source);
    let resolver = resolver_for(source);

    let result = resolve_variables(source, &values, &resolver);

    let ResolutionResult::Resolved(values) = result else {
        panic!("expected a resolved calc function");
    };
    let [ComponentValue::FUNCTION(function)] = values.as_slice() else {
        panic!("expected a resolved calc function");
    };
    assert!(matches!(
        function.values.as_slice(),
        [
            ComponentValue::PRESERVED(TokenData {
                kind: TokenKind::DIMENSION,
                ..
            }),
            ComponentValue::PRESERVED(TokenData {
                kind: TokenKind::DELIM('*'),
                ..
            }),
            ComponentValue::PRESERVED(TokenData {
                kind: TokenKind::NUMBER,
                ..
            }),
        ]
    ));
}

#[test]
fn reports_missing_variables_without_fallbacks() {
    let source = ".x{width:var(--missing)}";
    let values = value_of(source);
    let resolver = resolver_for(source);

    let ResolutionResult::Invalid(errors) = resolve_variables(source, &values, &resolver)
    else {
        panic!("expected missing variable to fail resolution");
    };
    assert!(matches!(
        errors.as_slice(),
        [VariableResolutionError {
            reason: VariableResolutionErrorReason::MISSING_VARIABLE,
            variable: Some(name),
            ..
        }] if name == "--missing"
    ));
}

#[test]
fn reports_variable_cycles() {
    let source = ":root{--a:var(--b);--b:var(--a)}.x{width:var(--a)}";
    let values = value_of(source);
    let resolver = resolver_for(source);

    let ResolutionResult::Invalid(errors) = resolve_variables(source, &values, &resolver)
    else {
        panic!("expected a variable cycle to fail resolution");
    };
    assert!(errors.iter().any(|error| {
        error.reason == VariableResolutionErrorReason::CYCLE
            && error.variable.as_deref() == Some("--a")
    }));
}

#[test]
fn rejects_non_custom_property_variable_names() {
    let source = ".x{width:var(gap,10px)}";
    let values = value_of(source);
    let resolver = resolver_for(source);

    let ResolutionResult::Invalid(errors) = resolve_variables(source, &values, &resolver)
    else {
        panic!("expected an invalid variable name");
    };
    assert!(matches!(
        errors.as_slice(),
        [VariableResolutionError {
            reason: VariableResolutionErrorReason::INVALID_NAME,
            ..
        }]
    ));
}

#[test]
fn local_custom_property_shadows_inherited_value() {
    let source = ".x{width:var(--gap)}";
    let values = value_of(source);
    let outer_source = ".x{--gap:4px}";
    let inner_source = ".x{--gap:8px}";
    let outer = declarations(outer_source)
        .into_iter()
        .next()
        .expect("outer declaration");
    let inner = declarations(inner_source)
        .into_iter()
        .next()
        .expect("inner declaration");
    let mut parent = CustomPropertyEnvironment::new();
    parent.set("--gap", outer.value);
    let mut resolver = CustomPropertyEnvironment::child_of(&parent);
    resolver.set("--gap", inner.value);

    let ResolutionResult::Resolved(values) = resolve_variables(source, &values, &resolver)
    else {
        panic!("expected scoped resolution to succeed");
    };
    let [ComponentValue::PRESERVED(TokenData { kind, .. })] = values.as_slice() else {
        panic!("expected one resolved token");
    };
    assert_eq!(*kind, TokenKind::DIMENSION);
    assert!(resolver.resolve("--gap").is_some());
}

#[test]
fn inherited_custom_property_is_used_when_not_locally_overridden() {
    let source = ".x{width:var(--gap)}";
    let values = value_of(source);
    let outer_source = ".x{--gap:4px}";
    let outer = declarations(outer_source)
        .into_iter()
        .next()
        .expect("outer declaration");
    let mut parent = CustomPropertyEnvironment::new();
    parent.set("--gap", outer.value);
    let resolver = CustomPropertyEnvironment::child_of(&parent);

    assert!(matches!(
        resolve_variables(source, &values, &resolver),
        ResolutionResult::Resolved(_)
    ));
}
