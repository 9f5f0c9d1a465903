use aurora::errors::ErrorKind;
use aurora::numbers::is_number_string;
use aurora::parser::Parser;
use aurora::scanner::Scanner;
use aurora::token::{Token, TokenType};

fn scan(src: &str) -> (Vec<Token>, Vec<aurora::errors::Error>) {
    let mut sc = Scanner::new(src.to_owned());
    let toks = sc.scan_tokens();
    (toks, sc.errors)
}

fn kinds(toks: &[Token]) -> Vec<TokenType> {
    toks.iter().map(|t| t.tokentype).collect()
}

#[test]
fn scans_punctuation() {
    let (toks, errs) = scan("(){},.-+;*/");
    assert!(errs.is_empty());
    assert_eq!(
        kinds(&toks),
        vec![
            TokenType::LeftParen,
            TokenType::RightParen,
            TokenType::LeftBrace,
            TokenType::RightBrace,
            TokenType::Comma,
            TokenType::Dot,
            TokenType::Minus,
            TokenType::Plus,
            TokenType::SemiColon,
            TokenType::Star,
            TokenType::Slash,
            TokenType::Eof,
        ]
    );
}

#[test]
fn scans_one_and_two_char_operators() {
    let (toks, errs) = scan("! != = == < <= > >=");
    assert!(errs.is_empty());
    assert_eq!(
        kinds(&toks),
        vec![
            TokenType::Bang,
            TokenType::BangEqual,
            TokenType::Equal,
            TokenType::EqualEqual,
            TokenType::Less,
            TokenType::LessEqual,
            TokenType::Greater,
            TokenType::GreaterEqual,
            TokenType::Eof,
        ]
    );
    assert_eq!(toks[1].lexeme, "!=");
    assert_eq!(toks[3].lexeme, "==");
}

#[test]
fn scans_keywords_and_identifiers() {
    let (toks, errs) = scan("and class else false for function if nil or print return super this true var while foo _bar9");
    assert!(errs.is_empty());
    assert_eq!(
        kinds(&toks),
        vec![
            TokenType::And,
            TokenType::Class,
            TokenType::Else,
            TokenType::False,
            TokenType::For,
            TokenType::Fun,
            TokenType::If,
            TokenType::Nil,
            TokenType::Or,
            TokenType::Print,
            TokenType::Return,
            TokenType::Super,
            TokenType::This,
            TokenType::True,
            TokenType::Var,
            TokenType::While,
            TokenType::Identifier,
            TokenType::Identifier,
            TokenType::Eof,
        ]
    );
    assert_eq!(toks[16].lexeme, "foo");
    assert_eq!(toks[17].lexeme, "_bar9");
}

#[test]
fn scans_numbers() {
    let (toks, errs) = scan("123 4.5 0.25 7.");
    assert!(errs.is_empty());
    assert_eq!(toks[0].tokentype, TokenType::Number);
    assert_eq!(toks[0].lexeme, "123");
    assert_eq!(toks[0].literal, "123");
    assert_eq!(toks[1].lexeme, "4.5");
    assert_eq!(toks[2].lexeme, "0.25");
    // A trailing dot is not part of the number.
    assert_eq!(toks[3].tokentype, TokenType::Number);
    assert_eq!(toks[3].lexeme, "7");
    assert_eq!(toks[4].tokentype, TokenType::Dot);
}

#[test]
fn scans_string_literals() {
    let (toks, errs) = scan("\"hello world\";");
    assert!(errs.is_empty());
    assert_eq!(toks[0].tokentype, TokenType::String);
    assert_eq!(toks[0].lexeme, "\"hello world\"");
    assert_eq!(toks[0].literal, "hello world");
    assert_eq!(toks[1].tokentype, TokenType::SemiColon);
}

#[test]
fn string_with_newline_increments_line() {
    let (toks, errs) = scan("\"a\nb\" x");
    assert!(errs.is_empty());
    assert_eq!(toks[0].tokentype, TokenType::String);
    assert_eq!(toks[0].literal, "a\nb");
    assert_eq!(toks[0].line, 2);
    assert_eq!(toks[1].tokentype, TokenType::Identifier);
    assert_eq!(toks[1].line, 2);
}

#[test]
fn unterminated_string_is_recorded() {
    let (toks, errs) = scan("\"oops");
    assert_eq!(errs.len(), 1);
    assert_eq!(errs[0].kind, ErrorKind::UnterminatedString);
    assert_eq!(toks.len(), 1);
    assert_eq!(toks[0].tokentype, TokenType::Eof);
}

#[test]
fn unexpected_character_is_recorded_and_skipped() {
    let (toks, errs) = scan("1 # 2");
    assert_eq!(errs.len(), 1);
    assert_eq!(errs[0].kind, ErrorKind::UnexpectedCharacter);
    assert_eq!(errs[0].line, 1);
    assert_eq!(
        kinds(&toks),
        vec![TokenType::Number, TokenType::Number, TokenType::Eof]
    );
}

#[test]
fn comments_run_to_end_of_line() {
    let (toks, errs) = scan("1 // all of this is ignored + - *\n2");
    assert!(errs.is_empty());
    assert_eq!(
        kinds(&toks),
        vec![TokenType::Number, TokenType::Number, TokenType::Eof]
    );
    assert_eq!(toks[0].line, 1);
    assert_eq!(toks[1].line, 2);
}

#[test]
fn newlines_count_lines() {
    let (toks, errs) = scan("a\nb\n\nc");
    assert!(errs.is_empty());
    assert_eq!(toks[0].line, 1);
    assert_eq!(toks[1].line, 2);
    assert_eq!(toks[2].line, 4);
}

#[test]
fn eof_terminates_every_scan() {
    let (toks, errs) = scan("");
    assert!(errs.is_empty());
    assert_eq!(toks.len(), 1);
    assert_eq!(toks[0].tokentype, TokenType::Eof);
    assert_eq!(toks[0].line, 1);
}

#[test]
fn lex_round_trip_of_lexemes() {
    // Joining whitespace-free lexemes with single spaces re-lexes to the
    // same token kinds.
    let (first, errs) = scan("var x=1.5; if(x>=2){print x;}else{x=x+1;}");
    assert!(errs.is_empty());
    let joined: Vec<String> = first[..first.len() - 1]
        .iter()
        .map(|t| t.lexeme.clone())
        .collect();
    let (second, errs2) = scan(&joined.join(" "));
    assert!(errs2.is_empty());
    assert_eq!(kinds(&first), kinds(&second));
    for (a, b) in first.iter().zip(second.iter()) {
        assert_eq!(a.lexeme, b.lexeme);
        assert_eq!(a.literal, b.literal);
    }
}

#[test]
fn number_text_shape() {
    assert!(is_number_string("1"));
    assert!(is_number_string("123"));
    assert!(is_number_string("1.5"));
    assert!(is_number_string("0.25"));
    assert!(!is_number_string(""));
    assert!(!is_number_string("."));
    assert!(!is_number_string("1."));
    assert!(!is_number_string(".5"));
    assert!(!is_number_string("1.2.3"));
    assert!(!is_number_string("12a"));
    assert!(!is_number_string("a12"));
}

#[test]
fn error_messages_name_the_failure() {
    let e = aurora::errors::Error::new(ErrorKind::UnterminatedString, 3);
    assert_eq!(e.message(), "unterminated string");
    assert_eq!(e.line, 3);
    let e2 = aurora::errors::Error::new(ErrorKind::TooManyArguments, 9);
    assert_eq!(e2.message(), "too many arguments");
}

#[test]
fn token_duplicate_is_exact() {
    let (toks, _) = scan("var answer = 42;");
    let d = toks[1].duplicate();
    assert_eq!(d.lexeme, toks[1].lexeme);
    assert_eq!(d.tokentype, toks[1].tokentype);
    assert_eq!(d.literal, toks[1].literal);
    assert_eq!(d.line, toks[1].line);
    let copy = aurora::token::duplicate_tokens(&toks);
    assert_eq!(copy.len(), toks.len());
}

#[test]
fn parser_holds_the_token_list() {
    let (toks, _) = scan("print 1 + 2 * 3;");
    let n = toks.len();
    let p = Parser::new(toks);
    assert_eq!(p.tokens.len(), n);
    assert_eq!(p.current, 0);
}
