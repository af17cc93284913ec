use lox::expr::AstPrinter;
use lox::expr::Binary;
use lox::expr::Expression;
use lox::expr::ExprVisitor;
use lox::expr::Grouping;
use lox::expr::Literal;
use lox::expr::Unary;
use lox::parser::Expected;
use lox::parser::Parser;
use lox::parser::ParseError;
use lox::scanner::Scanner;
use lox::scanner::ScannerResult;
use lox::token::LiteralValue;
use lox::token::Token;
use lox::token::TokenType;

fn scan(source: &str) -> Vec<ScannerResult> {
    Scanner::new(source.to_string()).scan_tokens()
}

fn tokens_of(source: &str) -> Vec<Token> {
    scan(source)
        .into_iter()
        .filter_map(|r| match r {
            ScannerResult::Token(t) => Some(t),
            ScannerResult::Error(_) => None,
        })
        .collect()
}

fn parse(source: &str) -> Result<Expression, ParseError> {
    let mut parser = Parser::new(tokens_of(source));
    parser.expression()
}

fn printed(source: &str) -> String {
    AstPrinter::print(&parse(source).unwrap())
}

fn kinds_of(source: &str) -> Vec<TokenType> {
    tokens_of(source).iter().map(|t| t.token_type).collect()
}

#[test]
fn test_printer() {
    let expr = Expression::Binary(Binary {
        left: Box::new(Expression::Unary(Unary {
            op: Token::new(TokenType::Minus, String::from("-"), 0, None),
            right: Box::new(Expression::Literal(Literal {
                value: LiteralValue::Number(String::from("123")),
            })),
        })),
        op: Token::new(TokenType::Star, String::from("*"), 0, None),
        right: Box::new(Expression::Grouping(Grouping {
            expr: Box::new(Expression::Literal(Literal {
                value: LiteralValue::Number(String::from("45.67")),
            })),
        })),
    });

    assert_eq!(AstPrinter::print(&expr), "(* (- 123) (group 45.67))");
}

#[test]
fn test_parser() {
    let program = "123 + 45 * 67 + 4";
    let tokens = Scanner::new(program.to_string()).scan_tokens();

    let filtered = tokens
        .iter()
        .filter_map(|t| match t {
            ScannerResult::Token(t) => Some(t.clone()),
            _ => None,
        })
        .collect();

    let mut parser = Parser::new(filtered);
    let expr = parser.expression().unwrap();
    assert_eq!(AstPrinter::print(&expr), "(+ (+ 123 (* 45 67)) 4)");
}

#[test]
fn test_precedence() {
    assert_eq!(printed("1 + 2 * 3"), "(+ 1 (* 2 3))");
    assert_eq!(printed("1 + (2 * 3)"), "(+ 1 (group (* 2 3)))");
}

#[test]
fn test_left_associativity() {
    assert_eq!(printed("1 - 2 - 3"), "(- (- 1 2) 3)");
    assert_ne!(printed("1 - 2 - 3"), "(- 1 (- 2 3))");
}

#[test]
fn test_grouping_preserved() {
    assert_eq!(printed("(1 + 2) * 3"), "(* (group (+ 1 2)) 3)");
}

#[test]
fn test_unary_right_associativity() {
    assert_eq!(printed("- - 5"), "(- (- 5))");
    assert_eq!(printed("--5"), "(- (- 5))");
    assert_eq!(printed("3 - -5"), "(- 3 (- 5))");
}

#[test]
fn test_scan_deterministic() {
    let source = "1 + 2 * (3 - 4)\n\"text\" @ identifier while";
    assert_eq!(scan(source), scan(source));
}

#[test]
fn test_print_deterministic() {
    let expr = parse("(1 + 2) * 3 == 4").unwrap();
    assert_eq!(AstPrinter::print(&expr), AstPrinter::print(&expr));
}

#[test]
fn test_unterminated_string() {
    let results = scan("\"abc");
    assert_eq!(results.len(), 2);
    match &results[0] {
        ScannerResult::Error(e) => {
            assert_eq!(e.message, "Unterminated string");
            assert_eq!(e.line, 1);
        }
        ScannerResult::Token(t) => panic!("expected an error, found token {:?}", t),
    }
    match &results[1] {
        ScannerResult::Token(t) => assert_eq!(t.token_type, TokenType::Eof),
        ScannerResult::Error(e) => panic!("expected end of input, found error {:?}", e),
    }
}

#[test]
fn test_unexpected_character() {
    let results = scan("@");
    assert_eq!(results.len(), 2);
    match &results[0] {
        ScannerResult::Error(e) => {
            assert_eq!(e.message, "Unexpected character '@'");
            assert_eq!(e.line, 1);
            assert_eq!(e.column, 1);
        }
        ScannerResult::Token(t) => panic!("expected an error, found token {:?}", t),
    }
    // Scanning resumes with the next token after the bad character.
    let resumed = scan("@ 12");
    assert_eq!(resumed.len(), 3);
    assert!(matches!(resumed[0], ScannerResult::Error(_)));
    match &resumed[1] {
        ScannerResult::Token(t) => {
            assert_eq!(t.token_type, TokenType::Number);
            assert_eq!(t.value, Some(LiteralValue::Number(String::from("12"))));
        }
        ScannerResult::Error(e) => panic!("expected a number token, found error {:?}", e),
    }
}

#[test]
fn test_end_to_end() {
    let kinds = kinds_of("123 + 45 * 67 + 4");
    assert_eq!(
        kinds,
        vec![
            TokenType::Number,
            TokenType::Plus,
            TokenType::Number,
            TokenType::Star,
            TokenType::Number,
            TokenType::Plus,
            TokenType::Number,
            TokenType::Eof,
        ]
    );
    let values: Vec<Option<LiteralValue>> =
        tokens_of("123 + 45 * 67 + 4").into_iter().map(|t| t.value).collect();
    assert_eq!(values[0], Some(LiteralValue::Number(String::from("123"))));
    assert_eq!(values[2], Some(LiteralValue::Number(String::from("45"))));
    assert_eq!(values[4], Some(LiteralValue::Number(String::from("67"))));
    assert_eq!(values[6], Some(LiteralValue::Number(String::from("4"))));
    assert_eq!(printed("123 + 45 * 67 + 4"), "(+ (+ 123 (* 45 67)) 4)");
}

#[test]
fn test_missing_close_paren() {
    let err = parse("(1 + 2").unwrap_err();
    assert_eq!(err.expected, Expected::RightParen);
    match err.found {
        Some(t) => assert_eq!(t.token_type, TokenType::Eof),
        None => panic!("the offending token should be the end-of-input token"),
    }
    assert_eq!(err.line, 1);
}

#[test]
fn test_unexpected_token_fatal() {
    let err = parse("1 + * 2").unwrap_err();
    assert_eq!(err.expected, Expected::Expression);
    match err.found {
        Some(t) => assert_eq!(t.token_type, TokenType::Star),
        None => panic!("the offending token should be the star"),
    }
}

#[test]
fn test_empty_input_error() {
    let mut parser = Parser::new(Vec::new());
    let err = parser.expression().unwrap_err();
    assert_eq!(err.expected, Expected::Expression);
    assert!(err.found.is_none());
    assert_eq!(err.line, 1);
}

#[test]
fn test_keywords_and_identifiers() {
    let kinds = kinds_of("and class else false fun for if nil or print return super this true var while foo");
    assert_eq!(
        kinds,
        vec![
            TokenType::And,
            TokenType::Class,
            TokenType::Else,
            TokenType::False,
            TokenType::Fun,
            TokenType::For,
            TokenType::If,
            TokenType::Nil,
            TokenType::Or,
            TokenType::Print,
            TokenType::Return,
            TokenType::Super,
            TokenType::This,
            TokenType::True,
            TokenType::Var,
            TokenType::While,
            TokenType::Identifier,
            TokenType::Eof,
        ]
    );
    let toks = tokens_of("orchid and_also x1 _ignored");
    assert_eq!(toks[0].token_type, TokenType::Identifier);
    assert_eq!(toks[0].value, Some(LiteralValue::Text(String::from("orchid"))));
    assert_eq!(toks[1].token_type, TokenType::Identifier);
    assert_eq!(toks[2].token_type, TokenType::Identifier);
    assert_eq!(toks[2].lexeme, "x1");
}

#[test]
fn test_number_canonical_form() {
    let toks = tokens_of("007 1.50 45.67 10.0 0 0.0");
    assert_eq!(toks[0].value, Some(LiteralValue::Number(String::from("7"))));
    assert_eq!(toks[0].lexeme, "007");
    assert_eq!(toks[1].value, Some(LiteralValue::Number(String::from("1.5"))));
    assert_eq!(toks[2].value, Some(LiteralValue::Number(String::from("45.67"))));
    assert_eq!(toks[3].value, Some(LiteralValue::Number(String::from("10"))));
    assert_eq!(toks[4].value, Some(LiteralValue::Number(String::from("0"))));
    assert_eq!(toks[5].value, Some(LiteralValue::Number(String::from("0"))));
}

#[test]
fn test_number_trailing_dot() {
    // A dot with no digit after it is not part of the number.
    let kinds = kinds_of("123.");
    assert_eq!(kinds, vec![TokenType::Number, TokenType::Dot, TokenType::Eof]);
}

#[test]
fn test_string_literal() {
    let toks = tokens_of("\"hi there\"");
    assert_eq!(toks[0].token_type, TokenType::Str);
    assert_eq!(toks[0].lexeme, "\"hi there\"");
    assert_eq!(toks[0].value, Some(LiteralValue::Text(String::from("hi there"))));
}

#[test]
fn test_string_spans_lines() {
    let toks = tokens_of("\"a\nb\" 9");
    assert_eq!(toks[0].token_type, TokenType::Str);
    assert_eq!(toks[0].line, 1);
    assert_eq!(toks[1].token_type, TokenType::Number);
    assert_eq!(toks[1].line, 2);
}

#[test]
fn test_comments_and_whitespace() {
    let toks = tokens_of("1 // ignored to end of line\n2");
    assert_eq!(toks[0].token_type, TokenType::Number);
    assert_eq!(toks[0].line, 1);
    assert_eq!(toks[1].token_type, TokenType::Number);
    assert_eq!(toks[1].line, 2);
    assert_eq!(toks[2].token_type, TokenType::Eof);
    // A comment that runs to the end of the input ends the scan cleanly.
    let kinds = kinds_of("1 // no newline");
    assert_eq!(kinds, vec![TokenType::Number, TokenType::Eof]);
    assert_eq!(kinds_of(" \t\r\n"), vec![TokenType::Eof]);
}

#[test]
fn test_empty_source() {
    let results = scan("");
    assert_eq!(results.len(), 1);
    match &results[0] {
        ScannerResult::Token(t) => {
            assert_eq!(t.token_type, TokenType::Eof);
            assert_eq!(t.lexeme, "");
            assert_eq!(t.line, 1);
            assert_eq!(t.value, None);
        }
        ScannerResult::Error(e) => panic!("expected end of input, found error {:?}", e),
    }
}

#[test]
fn test_operator_fusion() {
    let kinds = kinds_of("! != = == < <= > >= / * ; , . ( ) { }");
    assert_eq!(
        kinds,
        vec![
            TokenType::Bang,
            TokenType::BangEqual,
            TokenType::Equal,
            TokenType::EqualEqual,
            TokenType::Less,
            TokenType::LessEqual,
            TokenType::Greater,
            TokenType::GreaterEqual,
            TokenType::Slash,
            TokenType::Star,
            TokenType::Semicolon,
            TokenType::Comma,
            TokenType::Dot,
            TokenType::LeftParen,
            TokenType::RightParen,
            TokenType::LeftBrace,
            TokenType::RightBrace,
            TokenType::Eof,
        ]
    );
    let toks = tokens_of("<=");
    assert_eq!(toks[0].lexeme, "<=");
}

#[test]
fn test_comparison_and_equality_parse() {
    assert_eq!(printed("1 < 2 == 3 >= 4"), "(== (< 1 2) (>= 3 4))");
    assert_eq!(printed("1 != 2"), "(!= 1 2)");
    assert_eq!(printed("8 / 2 / 2"), "(/ (/ 8 2) 2)");
    assert_eq!(printed("\"a\" == \"b\""), "(== a b)");
}

#[test]
fn test_error_render() {
    let results = scan("@");
    match &results[0] {
        ScannerResult::Error(e) => {
            assert_eq!(e.render(), "[line 1:1] Error: Unexpected character '@'");
        }
        ScannerResult::Token(t) => panic!("expected an error, found token {:?}", t),
    }
}

#[test]
fn test_error_position() {
    let results = scan("\n\n12 @");
    let err = results
        .iter()
        .find_map(|r| match r {
            ScannerResult::Error(e) => Some(e.clone()),
            _ => None,
        })
        .unwrap();
    assert_eq!(err.line, 3);
    assert_eq!(err.column, 4);
}

struct Depth;

impl ExprVisitor for Depth {
    type Output = usize;

    fn visit_binary(&mut self, expr: &Binary) -> usize {
        1 + expr.left.accept(self).max(expr.right.accept(self))
    }

    fn visit_grouping(&mut self, expr: &Grouping) -> usize {
        1 + expr.expr.accept(self)
    }

    fn visit_literal(&mut self, _expr: &Literal) -> usize {
        1
    }

    fn visit_unary(&mut self, expr: &Unary) -> usize {
        1 + expr.right.accept(self)
    }
}

#[test]
fn test_visitor_dispatch() {
    let expr = parse("(1 + 2) * 3").unwrap();
    assert_eq!(expr.accept(&mut Depth), 4);
    assert_eq!(expr.accept(&mut AstPrinter), "(* (group (+ 1 2)) 3)");
    assert_eq!(expr.accept(&mut AstPrinter), AstPrinter::print(&expr));
}
