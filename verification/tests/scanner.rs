use gem::common::{NumValue, Token};
use gem::lexer::Lexer;

fn num(mantissa: u64, scale: usize) -> Token {
    Token::LitNum(NumValue { mantissa, scale })
}

fn all_tokens(src: &str) -> Vec<Token> {
    let mut lexer = Lexer::new(src);
    let mut out = Vec::new();
    loop {
        let t = lexer.next_token();
        if t == Token::Eof {
            return out;
        }
        out.push(t);
    }
}

#[test]
fn empty_input_is_eof() {
    let mut lexer = Lexer::new("");
    assert_eq!(lexer.next_token(), Token::Eof);
    assert_eq!(lexer.next_token(), Token::Eof);
}

#[test]
fn whitespace_only_input_is_eof_forever() {
    let mut lexer = Lexer::new("  \t\r\n   \n\t ");
    assert_eq!(lexer.next_token(), Token::Eof);
    assert_eq!(lexer.next_token(), Token::Eof);
    assert_eq!(lexer.next_token(), Token::Eof);
}

#[test]
fn integer_literal_exact_value() {
    assert_eq!(all_tokens("12"), vec![num(12, 0)]);
    assert_eq!(all_tokens("0"), vec![num(0, 0)]);
    assert_eq!(all_tokens("4503"), vec![num(4503, 0)]);
}

#[test]
fn decimal_literal_exact_value() {
    assert_eq!(all_tokens("3.14"), vec![num(314, 2)]);
    assert_eq!(all_tokens("0.5"), vec![num(5, 1)]);
    assert_eq!(all_tokens("007.5"), vec![num(75, 1)]);
}

#[test]
fn trailing_dot_reads_as_empty_fraction() {
    assert_eq!(all_tokens("12."), vec![num(12, 0)]);
}

#[test]
fn second_dot_is_its_own_token() {
    assert_eq!(all_tokens("1.2.3"), vec![num(12, 1), Token::Dot, num(3, 0)]);
}

#[test]
fn minus_is_never_part_of_a_literal() {
    assert_eq!(all_tokens("-7"), vec![Token::Minus, num(7, 0)]);
}

#[test]
fn oversized_mantissa_degrades_to_zero() {
    assert_eq!(all_tokens("99999999999999999999"), vec![num(0, 0)]);
    assert_eq!(all_tokens("18446744073709551615"), vec![num(u64::MAX, 0)]);
    assert_eq!(all_tokens("18446744073709551616"), vec![num(0, 0)]);
}

#[test]
fn string_escape_newline_round_trip() {
    assert_eq!(all_tokens("\"a\\nb\""), vec![Token::LitStr("a\nb".to_string())]);
}

#[test]
fn string_escapes_resolve() {
    assert_eq!(
        all_tokens("\"1\\t2\\\"3\\\\4\""),
        vec![Token::LitStr("1\t2\"3\\4".to_string())]
    );
}

#[test]
fn unknown_escape_keeps_its_backslash() {
    assert_eq!(all_tokens("\"a\\qb\""), vec![Token::LitStr("a\\qb".to_string())]);
}

#[test]
fn unterminated_string_keeps_what_was_read() {
    assert_eq!(all_tokens("\"abc"), vec![Token::LitStr("abc".to_string())]);
}

#[test]
fn lone_trailing_backslash_is_dropped() {
    assert_eq!(all_tokens("\"ab\\"), vec![Token::LitStr("ab".to_string())]);
}

#[test]
fn keyword_func_vs_identifier_funct() {
    assert_eq!(all_tokens("func"), vec![Token::Func]);
    assert_eq!(all_tokens("funct"), vec![Token::Identifier("funct".to_string())]);
}

#[test]
fn keyword_table() {
    assert_eq!(
        all_tokens("func var if else while return"),
        vec![Token::Func, Token::Var, Token::If, Token::Else, Token::While, Token::Return]
    );
}

#[test]
fn identifier_with_digits() {
    assert_eq!(all_tokens("x2y"), vec![Token::Identifier("x2y".to_string())]);
}

#[test]
fn punctuation_tokens() {
    assert_eq!(
        all_tokens("+ - * / = : , . ; ( ) { }"),
        vec![
            Token::Plus,
            Token::Minus,
            Token::Star,
            Token::Slash,
            Token::Eq,
            Token::Colon,
            Token::Comma,
            Token::Dot,
            Token::Semicolon,
            Token::ParenL,
            Token::ParenR,
            Token::BraceL,
            Token::BraceR,
        ]
    );
}

#[test]
fn unrecognized_characters_are_skipped() {
    assert_eq!(all_tokens("@#x $%+"), vec![Token::Identifier("x".to_string()), Token::Plus]);
}

#[test]
fn declaration_token_sequence() {
    assert_eq!(
        all_tokens("var x = 3.5;"),
        vec![
            Token::Var,
            Token::Identifier("x".to_string()),
            Token::Eq,
            num(35, 1),
            Token::Semicolon,
        ]
    );
}

#[test]
fn current_char_peeks_without_advancing() {
    let lexer = Lexer::new("ab");
    assert_eq!(lexer.current_char(), Some('a'));
    assert_eq!(lexer.current_char(), Some('a'));
    let empty = Lexer::new("");
    assert_eq!(empty.current_char(), None);
}

#[test]
fn word_for_is_an_identifier_not_a_keyword() {
    assert_eq!(all_tokens("for"), vec![Token::Identifier("for".to_string())]);
}

#[test]
fn digit_run_ends_an_identifier_start() {
    assert_eq!(
        all_tokens("1x"),
        vec![num(1, 0), Token::Identifier("x".to_string())]
    );
}

#[test]
fn eof_stays_eof_after_real_tokens() {
    let mut lexer = Lexer::new("x");
    assert_eq!(lexer.next_token(), Token::Identifier("x".to_string()));
    assert_eq!(lexer.next_token(), Token::Eof);
    assert_eq!(lexer.next_token(), Token::Eof);
}
