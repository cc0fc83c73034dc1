use css_parser_core::lexer::Lexer;
use css_parser_core::parser::{ComponentValue, Declaration, Function, Parser, Rule, StyleBlockItem};
use css_parser_core::resolver::{CustomPropertyEnvironment, VariableResolutionErrorReason};
use css_parser_core::values::{
    analyze_declaration, analyze_expression, parse_calc_expression,
    parse_calc_expression_with_variables, parse_value_list, Color, Expr, ExpressionErrorReason,
    ListSeparator, NumericType, PropertyErrorReason, PropertyGrammarRegistry, SemanticError,
    SemanticErrorReason, Value, ValueExpressionError, ValueParseErrorReason,
};
fn calc_function(source: &str) -> Function {
    let mut lexer = Lexer::new(source);
    let tokens = lexer.scan();
    let mut parser = Parser::new(tokens);
    let stylesheet = parser.parse_stylesheet();
    assert!(stylesheet.errors.is_empty(), "{:?}", stylesheet.errors);

    for rule in &stylesheet.value.rule_list {
        let Rule::QUALIFIED_RULE(rule) = rule else {
            continue;
        };
        let Some(block) = &rule.block else {
            continue;
        };
        for item in &block.items {
            let StyleBlockItem::DECLARATION(declaration) = item else {
                continue;
            };
            if let Some(ComponentValue::FUNCTION(function)) = declaration.value.first() {
                return function.clone();
            }
        }
    }
    panic!("expected function");
}

fn first_declaration(source: &str) -> Declaration {
    let mut lexer = Lexer::new(source);
    let tokens = lexer.scan();
    let mut parser = Parser::new(tokens);
    let stylesheet = parser.parse_stylesheet();
    assert!(stylesheet.errors.is_empty(), "{:?}", stylesheet.errors);

    let Rule::QUALIFIED_RULE(rule) = &stylesheet.value.rule_list[0] else {
        panic!("expected qualified rule");
    };
    let block = rule.block.as_ref().expect("expected style block");
    let StyleBlockItem::DECLARATION(declaration) = &block.items[0] else {
        panic!("expected declaration");
    };
    declaration.clone()
}

#[test]
fn respects_operator_precedence() {
    let source = ".a{width:calc(1px + 2px * 3);} ";
    let function = calc_function(source);
    let expression = parse_calc_expression(source, &function).unwrap();

    assert!(matches!(
        expression,
        Expr::Add(_, right) if matches!(*right, Expr::Multiply(_, _))
    ));
}

#[test]
fn parses_grouped_expression() {
    let source = ".a{width:calc((1px + 2px) * 3px);} ";
    let function = calc_function(source);
    let expression = parse_calc_expression(source, &function).unwrap();

    assert!(matches!(
        expression,
        Expr::Multiply(left, _) if matches!(*left, Expr::Group(_))
    ));
}

#[test]
fn preserves_numeric_units_and_spans() {
    let source = ".a{width:calc(1.5rem + 20%);} ";
    let function = calc_function(source);
    let Expr::Add(left, right) = parse_calc_expression(source, &function).unwrap() else {
        panic!("expected addition");
    };
    let Expr::Literal(left) = *left else {
        panic!("expected left literal");
    };
    let Expr::Literal(right) = *right else {
        panic!("expected right literal");
    };

    assert_eq!(left.value.parse::<f64>().unwrap(), 1.5);
    assert_eq!(left.unit.as_deref(), Some("rem"));
    assert_eq!(right.value.parse::<f64>().unwrap(), 20.0);
    assert_eq!(right.unit.as_deref(), Some("%"));
    assert_eq!(&source[left.span.0..=left.span.1], "1.5rem");
    assert_eq!(&source[right.span.0..=right.span.1], "20%");
}

#[test]
fn analyzes_valid_numeric_operations() {
    let source = ".a{width:calc(2 * 3px + 1px);} ";
    let function = calc_function(source);
    let expression = parse_calc_expression(source, &function).unwrap();

    assert_eq!(
        analyze_expression(&expression),
        Ok(NumericType::Dimension("length".to_string()))
    );
}

#[test]
fn accepts_addition_of_compatible_dimensions() {
    let source = ".a{width:calc(1px + 1rem);} ";
    let function = calc_function(source);
    let expression = parse_calc_expression(source, &function).unwrap();

    assert_eq!(
        analyze_expression(&expression),
        Ok(NumericType::Dimension("length".to_string()))
    );
}

#[test]
fn rejects_addition_of_number_and_dimension() {
    let source = ".a{width:calc(1 + 1px);} ";
    let function = calc_function(source);
    let expression = parse_calc_expression(source, &function).unwrap();

    assert_eq!(
        analyze_expression(&expression),
        Err(SemanticError {
            reason: SemanticErrorReason::INCOMPATIBLE_ADDITION,
        })
    );
}

#[test]
fn rejects_multiplication_of_two_dimensions() {
    let source = ".a{width:calc(2px * 3px);} ";
    let function = calc_function(source);
    let expression = parse_calc_expression(source, &function).unwrap();

    assert_eq!(
        analyze_expression(&expression),
        Err(SemanticError {
            reason: SemanticErrorReason::INVALID_MULTIPLICATION,
        })
    );
}

#[test]
fn rejects_division_by_a_dimension() {
    let source = ".a{width:calc(2px / 3px);} ";
    let function = calc_function(source);
    let expression = parse_calc_expression(source, &function).unwrap();

    assert_eq!(
        analyze_expression(&expression),
        Err(SemanticError {
            reason: SemanticErrorReason::INVALID_DIVISION,
        })
    );
}

#[test]
fn parses_min_and_max_as_expression_nodes() {
    let source = ".a{width:calc(min(1px, 2px) + MAX(3px, 4px));} ";
    let function = calc_function(source);
    let expression = parse_calc_expression(source, &function).unwrap();
    let Expr::Add(left, right) = expression else {
        panic!("expected addition");
    };

    assert!(matches!(*left, Expr::Min(arguments) if arguments.len() == 2));
    assert!(matches!(*right, Expr::Max(arguments) if arguments.len() == 2));
}

#[test]
fn parses_clamp_with_three_arguments() {
    let source = ".a{width:calc(clamp(1px, 2px, 3px));} ";
    let function = calc_function(source);
    let expression = parse_calc_expression(source, &function).unwrap();

    assert!(matches!(expression, Expr::Clamp { .. }));
}

#[test]
fn rejects_invalid_math_function_argument_counts() {
    for source in [
        ".a{width:calc(min(1px));} ",
        ".a{width:calc(max(1px));} ",
        ".a{width:calc(clamp(1px, 2px));} ",
        ".a{width:calc(clamp(1px, 2px, 3px, 4px));} ",
    ] {
        let function = calc_function(source);
        let error = parse_calc_expression(source, &function).unwrap_err();
        assert_eq!(error.reason, ExpressionErrorReason::INVALID_ARGUMENT_COUNT);
    }
}

#[test]
fn rejects_empty_math_function_arguments() {
    let source = ".a{width:calc(min(1px,));} ";
    let function = calc_function(source);

    let error = parse_calc_expression(source, &function).unwrap_err();
    assert_eq!(error.reason, ExpressionErrorReason::EMPTY_ARGUMENT);
}

#[test]
fn parses_scalar_values() {
    let cases = [
        (".a{width:12px;} ", "dimension"),
        (".a{opacity:0.5;} ", "number"),
        (".a{width:50%;} ", "percentage"),
        (".a{font-family:\"Open Sans\";} ", "string"),
        (".a{display:block;} ", "keyword"),
        (".a{src:url(font.woff2);} ", "url"),
    ];

    for (source, expected) in cases {
        let declaration = first_declaration(source);
        let value = parse_value_list(source, &declaration.value).unwrap();
        let actual = match value {
            Value::Number(number) if number.unit.as_deref() == Some("px") => "dimension",
            Value::Number(number) if number.unit.as_deref() == Some("%") => "percentage",
            Value::Number(_) => "number",
            Value::String(_) => "string",
            Value::Keyword(_) => "keyword",
            Value::Url(_) => "url",
            _ => "other",
        };
        assert_eq!(actual, expected, "{source}");
    }
}

#[test]
fn parses_hex_named_and_function_colors() {
    let hex_source = ".a{color:#0f08;} ";
    let named_source = ".a{color:ReBeccAPurple;} ";
    let function_source = ".a{color:rgb(10 20 30 / 50%);} ";

    assert!(matches!(
        parse_value_list(hex_source, &first_declaration(hex_source).value).unwrap(),
        Value::Color(Color::Hex { digits: 4, .. })
    ));
    assert!(matches!(
        parse_value_list(named_source, &first_declaration(named_source).value).unwrap(),
        Value::Color(Color::Named(_))
    ));
    assert!(matches!(
        parse_value_list(function_source, &first_declaration(function_source).value).unwrap(),
        Value::Color(Color::Function(_))
    ));
}

#[test]
fn rejects_malformed_hex_colors() {
    let source = ".a{color:#12;} ";
    let declaration = first_declaration(source);

    let error = parse_value_list(source, &declaration.value).unwrap_err();
    assert_eq!(error.reason, ValueParseErrorReason::INVALID_COLOR);
}

#[test]
fn preserves_list_separator_kinds() {
    let whitespace_source = ".a{margin:10px 20px 30px;} ";
    let comma_source = ".a{font-family:Arial, sans-serif;} ";
    let slash_source = ".a{font:12px/1.5 Arial;} ";
    let whitespace = first_declaration(whitespace_source);
    let comma = first_declaration(comma_source);
    let slash = first_declaration(slash_source);

    assert!(matches!(
        parse_value_list(whitespace_source, &whitespace.value).unwrap(),
        Value::List {
            separator: ListSeparator::Whitespace,
            ..
        }
    ));
    assert!(matches!(
        parse_value_list(comma_source, &comma.value).unwrap(),
        Value::List {
            separator: ListSeparator::Comma,
            ..
        }
    ));
    assert!(matches!(
        parse_value_list(slash_source, &slash.value).unwrap(),
        Value::List {
            separator: ListSeparator::Mixed,
            ..
        }
    ));
}

#[test]
fn preserves_unsupported_component_values_as_raw() {
    let source = ".a{content:[unsupported];} ";
    let declaration = first_declaration(source);

    assert!(matches!(
        parse_value_list(source, &declaration.value).unwrap(),
        Value::Raw(_)
    ));
}

#[test]
fn validates_registered_property_grammars() {
    let registry = PropertyGrammarRegistry::default();
    let valid = [
        ".a{color:red;} ",
        ".a{width:0;} ",
        ".a{height:50%;} ",
        ".a{margin:1em auto 2em;} ",
        ".a{padding:0 2rem 1rem 3rem;} ",
        ".a{font-size:large;} ",
        ".a{opacity:0.5;} ",
        ".a{display:flex;} ",
    ];
    for source in valid {
        let declaration = first_declaration(source);
        assert!(
            analyze_declaration(source, &declaration, &registry).is_ok(),
            "{source}"
        );
    }

    let invalid = [
        ".a{color:12px;} ",
        ".a{width:red;} ",
        ".a{margin:auto auto auto auto auto;} ",
        ".a{padding:auto;} ",
        ".a{font-size:banana;} ",
        ".a{opacity:2px;} ",
        ".a{display:banana;} ",
    ];
    for source in invalid {
        let declaration = first_declaration(source);
        assert_eq!(
            analyze_declaration(source, &declaration, &registry)
                .unwrap_err()
                .reason,
            PropertyErrorReason::INVALID_VALUE,
            "{source}"
        );
    }
}

#[test]
fn leaves_unknown_and_custom_properties_permissive() {
    let registry = PropertyGrammarRegistry::default();
    for source in [
        ".a{unknown-property:banana;} ",
        ".a{--custom:[unsupported];} ",
    ] {
        let declaration = first_declaration(source);
        assert!(
            analyze_declaration(source, &declaration, &registry).is_ok(),
            "{source}"
        );
    }
}

#[test]
fn rejects_missing_operand() {
    let source = ".a{width:calc(1px +);} ";
    let function = calc_function(source);

    let error = parse_calc_expression(source, &function).unwrap_err();
    assert_eq!(error.reason, ExpressionErrorReason::UNEXPECTED_EOF);
}

#[test]
fn rejects_nested_unsupported_function() {
    let source = ".a{width:calc(round(1px) + 1px);} ";
    let function = calc_function(source);

    let error = parse_calc_expression(source, &function).unwrap_err();
    assert_eq!(error.reason, ExpressionErrorReason::UNSUPPORTED_FUNCTION);
}

#[test]
fn resolves_variables_before_parsing_calc() {
    let source = ":root{--gap:8px;} .a{width:calc(var(--gap) * 2);} ";
    let variable = first_declaration(source);
    let mut resolver = CustomPropertyEnvironment::new();
    resolver.set("--gap", variable.value);
    let function = calc_function(source);

    let expression =
        parse_calc_expression_with_variables(source, &function, &resolver).unwrap();
    let Expr::Multiply(left, right) = expression else {
        panic!("expected multiplication");
    };
    let Expr::Literal(left) = *left else {
        panic!("expected resolved left literal");
    };
    let Expr::Literal(right) = *right else {
        panic!("expected right literal");
    };
    assert_eq!(left.value.parse::<f64>().unwrap(), 8.0);
    assert_eq!(left.unit.as_deref(), Some("px"));
    assert_eq!(right.value.parse::<f64>().unwrap(), 2.0);
}

#[test]
fn reports_variable_errors_before_expression_errors() {
    let source = ".a{width:calc(var(--missing) * 2);} ";
    let function = calc_function(source);
    let mut resolver = CustomPropertyEnvironment::new();
    resolver.set("--other", Vec::new());

    let error = parse_calc_expression_with_variables(source, &function, &resolver)
        .expect_err("missing variable should fail resolution");
    let ValueExpressionError::VARIABLE(errors) = error else {
        panic!("expected variable resolution error");
    };
    assert_eq!(
        errors[0].reason,
        VariableResolutionErrorReason::MISSING_VARIABLE
    );
}

#[test]
fn resolves_fallback_before_parsing_calc() {
    let source = ".a{width:calc(var(--missing, 4px) + 2px);} ";
    let function = calc_function(source);
    let mut resolver = CustomPropertyEnvironment::new();
    resolver.set("--other", Vec::new());

    let expression =
        parse_calc_expression_with_variables(source, &function, &resolver).unwrap();
    let Expr::Add(left, _) = expression else {
        panic!("expected addition");
    };
    let Expr::Literal(left) = *left else {
        panic!("expected fallback literal");
    };
    assert_eq!(left.value.parse::<f64>().unwrap(), 4.0);
    assert_eq!(left.unit.as_deref(), Some("px"));
}
