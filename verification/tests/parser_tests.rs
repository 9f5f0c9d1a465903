use aurora::errors::ErrorKind;
use aurora::expressions::{Expression, Object};
use aurora::parser::{parse_source, Parser};
use aurora::scanner::Scanner;
use aurora::statements::Statement;
use aurora::token::TokenType;

fn parse(src: &str) -> (Vec<Statement>, Vec<aurora::errors::Error>) {
    parse_source(src.to_owned())
}

#[test]
fn parses_print_with_precedence() {
    // `1 + 2 * 3` groups as `1 + (2 * 3)`.
    let (stmts, errs) = parse("print 1 + 2 * 3;");
    assert!(errs.is_empty());
    assert_eq!(stmts.len(), 1);
    match &stmts[0] {
        Statement::Print { expression } => match expression {
            Expression::Binary { left, operator, right } => {
                assert_eq!(operator.tokentype, TokenType::Plus);
                assert!(matches!(
                    **left,
                    Expression::Literal { value: Object::NumberObject(_) }
                ));
                match &**right {
                    Expression::Binary { operator, .. } => {
                        assert_eq!(operator.tokentype, TokenType::Star)
                    }
                    other => panic!("expected a product, got {:?}", other),
                }
            }
            other => panic!("expected a sum, got {:?}", other),
        },
        other => panic!("expected a print statement, got {:?}", other),
    }
}

#[test]
fn parses_var_declaration_with_initializer() {
    let (stmts, errs) = parse("var a = \"foo\";");
    assert!(errs.is_empty());
    match &stmts[0] {
        Statement::Variable { name, init } => {
            assert_eq!(name.lexeme, "a");
            assert!(matches!(
                init,
                Some(Expression::Literal { value: Object::StringObject(_) })
            ));
        }
        other => panic!("expected a var declaration, got {:?}", other),
    }
}

#[test]
fn parses_assignment_and_set_property() {
    let (stmts, errs) = parse("x = 1; o.f = 2;");
    assert!(errs.is_empty());
    assert_eq!(stmts.len(), 2);
    match &stmts[0] {
        Statement::Expression { expression: Expression::Assign { name, .. } } => {
            assert_eq!(name.lexeme, "x")
        }
        other => panic!("expected an assignment, got {:?}", other),
    }
    match &stmts[1] {
        Statement::Expression { expression: Expression::SetProperty { name, .. } } => {
            assert_eq!(name.lexeme, "f")
        }
        other => panic!("expected a property set, got {:?}", other),
    }
}

#[test]
fn parses_if_while_for() {
    let (stmts, errs) = parse(
        "if (true) { print 1; } else { print 2; } while (false) { } for (var i = 0; i < 3; i = i + 1) { print i; }",
    );
    assert!(errs.is_empty());
    assert_eq!(stmts.len(), 3);
    assert!(matches!(stmts[0], Statement::If { else_branch: Some(_), .. }));
    assert!(matches!(stmts[1], Statement::While { .. }));
    match &stmts[2] {
        Statement::For { init, condition, increment, .. } => {
            assert!(init.is_some());
            assert!(condition.is_some());
            assert!(increment.is_some());
        }
        other => panic!("expected a for statement, got {:?}", other),
    }
}

#[test]
fn parses_function_declaration_and_calls() {
    let (stmts, errs) = parse("function add(a, b) { return a + b; } print add(1, 2);");
    assert!(errs.is_empty());
    match &stmts[0] {
        Statement::Function { name, params, .. } => {
            assert_eq!(name.lexeme, "add");
            assert_eq!(params.len(), 2);
        }
        other => panic!("expected a function declaration, got {:?}", other),
    }
    match &stmts[1] {
        Statement::Print { expression: Expression::Call { arguments, .. } } => {
            assert_eq!(arguments.len(), 2)
        }
        other => panic!("expected a call, got {:?}", other),
    }
}

#[test]
fn parses_class_with_superclass_this_and_super() {
    let (stmts, errs) = parse(
        "class B < A { hi() { return super.hi() + this.x; } } var o = B(); print o.hi();",
    );
    assert!(errs.is_empty());
    match &stmts[0] {
        Statement::Class { name, superclass, methods } => {
            assert_eq!(name.lexeme, "B");
            assert_eq!(superclass.as_ref().unwrap().lexeme, "A");
            assert_eq!(methods.len(), 1);
        }
        other => panic!("expected a class declaration, got {:?}", other),
    }
    match &stmts[2] {
        Statement::Print { expression: Expression::Call { callee, .. } } => {
            assert!(matches!(**callee, Expression::Get { .. }))
        }
        other => panic!("expected a method call, got {:?}", other),
    }
}

#[test]
fn invalid_assignment_target_is_an_error() {
    let (_stmts, errs) = parse("1 = 2;");
    assert!(errs
        .iter()
        .any(|e| e.kind == ErrorKind::InvalidAssignmentTarget));
}

#[test]
fn synchronize_recovers_and_both_errors_are_kept() {
    let (stmts, errs) = parse("var = 1; print 2; var = 3;");
    assert_eq!(errs.len(), 2);
    assert!(errs.iter().all(|e| e.kind == ErrorKind::UnexpectedToken));
    // The statement between the two bad declarations still parses.
    assert_eq!(stmts.len(), 1);
    assert!(matches!(stmts[0], Statement::Print { .. }));
}

#[test]
fn too_many_arguments_is_an_error() {
    let mut src = String::from("f(0");
    for i in 1..=255 {
        src.push_str(&format!(", {}", i));
    }
    src.push_str(");");
    let (_stmts, errs) = parse(&src);
    assert!(errs.iter().any(|e| e.kind == ErrorKind::TooManyArguments));
    // One argument fewer is fine.
    let mut ok_src = String::from("f(0");
    for i in 1..=254 {
        ok_src.push_str(&format!(", {}", i));
    }
    ok_src.push_str(");");
    let (stmts, errs) = parse(&ok_src);
    assert!(errs.is_empty());
    match &stmts[0] {
        Statement::Expression { expression: Expression::Call { arguments, .. } } => {
            assert_eq!(arguments.len(), 255)
        }
        other => panic!("expected a call, got {:?}", other),
    }
}

#[test]
fn grouping_changes_precedence() {
    let (stmts, errs) = parse("print (1 + 2) * 3;");
    assert!(errs.is_empty());
    match &stmts[0] {
        Statement::Print { expression: Expression::Binary { left, operator, .. } } => {
            assert_eq!(operator.tokentype, TokenType::Star);
            assert!(matches!(**left, Expression::Grouping { .. }));
        }
        other => panic!("expected a product of a grouping, got {:?}", other),
    }
}

#[test]
fn unary_operators_nest() {
    let (stmts, errs) = parse("print !!true; print --1;");
    assert!(errs.is_empty());
    for st in &stmts {
        match st {
            Statement::Print { expression: Expression::Unary { right, .. } } => {
                assert!(matches!(**right, Expression::Unary { .. }))
            }
            other => panic!("expected nested unary, got {:?}", other),
        }
    }
}

#[test]
fn logical_operators_parse_lower_than_equality() {
    let (stmts, errs) = parse("print 1 == 1 or 2 == 2 and false;");
    assert!(errs.is_empty());
    match &stmts[0] {
        Statement::Print { expression: Expression::Logical { operator, .. } } => {
            assert_eq!(operator.tokentype, TokenType::Or)
        }
        other => panic!("expected a logical expression, got {:?}", other),
    }
}

#[test]
fn parser_reports_lexer_errors_too() {
    let (_stmts, errs) = parse("print \"oops");
    assert!(errs.iter().any(|e| e.kind == ErrorKind::UnterminatedString));
}

#[test]
fn parse_is_a_function_of_the_tokens() {
    // The same token list parses to the same tree, run twice.
    let mut sc1 = Scanner::new("var a = 1 + 2;".to_owned());
    let toks1 = sc1.scan_tokens();
    let mut sc2 = Scanner::new("var a = 1 + 2;".to_owned());
    let toks2 = sc2.scan_tokens();
    let mut p1 = Parser::new(toks1);
    let (s1, e1) = p1.parse();
    let mut p2 = Parser::new(toks2);
    let (s2, e2) = p2.parse();
    assert_eq!(format!("{:?}", s1), format!("{:?}", s2));
    assert_eq!(e1, e2);
}
