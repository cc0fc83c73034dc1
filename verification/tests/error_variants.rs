use css_parser_core::errors::LexerErrorReason;
use css_parser_core::lexer::Lexer;
use css_parser_core::parser::{
    ComponentValue, Declaration, Function, Parser, Rule, StyleBlockItem, TokenData,
};
use css_parser_core::reader::{Reader, ReaderError};
use css_parser_core::resolver::{
    resolve_variables, CustomPropertyEnvironment, ResolutionResult, VariableResolutionErrorReason,
};
use css_parser_core::token::TokenKind;
use css_parser_core::types::LexerSpan;
use css_parser_core::values::{
    analyze_declaration, parse_calc_expression, parse_value_list, ExpressionErrorReason,
    PropertyErrorReason, PropertyGrammarRegistry, ValueParseErrorReason,
};
use std::io::{Error, ErrorKind, Read};

fn first_declaration(source: &str) -> Declaration {
    let mut lexer = Lexer::new(source);
    let tokens = lexer.scan();
    let mut parser = Parser::new(tokens);
    let stylesheet = parser.parse_stylesheet();
    let Rule::QUALIFIED_RULE(rule) = &stylesheet.value.rule_list[0] else {
        panic!("expected qualified rule");
    };
    let block = rule.block.as_ref().expect("expected style block");
    let StyleBlockItem::DECLARATION(declaration) = &block.items[0] else {
        panic!("expected declaration");
    };
    declaration.clone()
}

fn number_over(start: usize, end: usize) -> TokenData {
    TokenData { kind: TokenKind::NUMBER, line: 1, span: LexerSpan(start, end) }
}

#[test]
fn a_list_that_starts_with_a_comma_is_invalid() {
    let source = "a{margin: , 1px}";
    let declaration = first_declaration(source);
    let error = parse_value_list(source, &declaration.value).unwrap_err();
    assert_eq!(error.reason, ValueParseErrorReason::INVALID_LIST);
}

#[test]
fn a_doubled_separator_is_invalid() {
    let source = "a{margin: 1px,,2px}";
    let declaration = first_declaration(source);
    let error = parse_value_list(source, &declaration.value).unwrap_err();
    assert_eq!(error.reason, ValueParseErrorReason::INVALID_LIST);
}

#[test]
fn a_number_token_over_letters_is_an_invalid_number() {
    let source = "abc";
    let values = vec![ComponentValue::PRESERVED(number_over(0, 2))];
    let error = parse_value_list(source, &values).unwrap_err();
    assert_eq!(error.reason, ValueParseErrorReason::INVALID_NUMBER);
}

#[test]
fn a_calc_operand_over_letters_is_an_invalid_number() {
    let source = "abc";
    let function = Function {
        name: TokenData { kind: TokenKind::FUNCTION, line: 1, span: LexerSpan(0, 0) },
        values: vec![ComponentValue::PRESERVED(number_over(0, 2))],
        closing: None,
    };
    let error = parse_calc_expression(source, &function).unwrap_err();
    assert_eq!(error.reason, ExpressionErrorReason::INVALID_NUMBER);
    assert_eq!(error.span, LexerSpan(0, 2));
}

#[test]
fn an_unclosed_var_is_an_invalid_function() {
    let source = "a{color: var(--x";
    let declaration = first_declaration(source);
    let env = CustomPropertyEnvironment::new();
    match resolve_variables(source, &declaration.value, &env) {
        ResolutionResult::Invalid(errors) => {
            assert_eq!(errors.len(), 1);
            assert_eq!(errors[0].reason, VariableResolutionErrorReason::INVALID_FUNCTION);
            assert_eq!(errors[0].variable, None);
        }
        ResolutionResult::Resolved(values) => panic!("expected an error, got {:?}", values),
    }
}

#[test]
fn a_malformed_list_is_invalid_value_syntax() {
    let source = "a{margin: , 1px}";
    let declaration = first_declaration(source);
    let registry = PropertyGrammarRegistry::default();
    let error = analyze_declaration(source, &declaration, &registry).unwrap_err();
    assert_eq!(error.reason, PropertyErrorReason::INVALID_VALUE_SYNTAX);
    assert_eq!(error.property, declaration.name);
}

#[test]
fn an_escaped_newline_is_an_invalid_token() {
    let mut lexer = Lexer::new("\\\n");
    let error = lexer.escape(true).unwrap_err();
    assert_eq!(error.reason, LexerErrorReason::INVALID_TOKEN);
    assert_eq!(lexer.current, 0);
}

#[test]
fn a_consumer_that_does_not_apply_reports_no_match() {
    let mut lexer = Lexer::new("a");
    let error = lexer.whitespace(true).unwrap_err();
    assert_eq!(error.reason, LexerErrorReason::NO_MATCH);
    assert_eq!(lexer.current, 0);
}

#[test]
fn running_past_the_end_is_an_invariant_violation() {
    let mut lexer = Lexer::new("");
    let error = lexer.run().unwrap_err();
    assert_eq!(error.reason, LexerErrorReason::INVARIANT_VIOLATION);
}

struct Refusing;

impl Read for Refusing {
    fn read(&mut self, _buf: &mut [u8]) -> std::io::Result<usize> {
        Err(Error::new(ErrorKind::PermissionDenied, "denied"))
    }
}

#[test]
fn a_failing_source_is_an_io_error() {
    let mut reader = Reader::new(Refusing);
    let error = reader.read().unwrap_err();
    assert_eq!(
        error,
        ReaderError::Io { kind: ErrorKind::PermissionDenied, message: "denied".to_string() }
    );
    assert_eq!(reader.read().unwrap_err(), error);
}
