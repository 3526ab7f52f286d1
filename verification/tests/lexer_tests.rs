use brainrotlang::lexer::{tokenize, LexError, Token};

fn ident(name: &str) -> Token {
    Token::Ident(name.to_string())
}

#[test]
fn empty_text_has_no_tokens() {
    assert_eq!(tokenize(""), Ok(vec![]));
    assert_eq!(tokenize(" \t\r\n "), Ok(vec![]));
}

#[test]
fn every_keyword_is_recognised() {
    assert_eq!(
        tokenize("Declare Print Input If Else Loop Sleep Clear"),
        Ok(vec![
            Token::Declare,
            Token::Print,
            Token::Input,
            Token::If,
            Token::Else,
            Token::Loop,
            Token::Sleep,
            Token::Clear,
        ])
    );
}

#[test]
fn punctuation_is_recognised() {
    assert_eq!(
        tokenize("+ - * / -> = ;"),
        Ok(vec![
            Token::Add,
            Token::Sub,
            Token::Mul,
            Token::Div,
            Token::Into,
            Token::Assign,
            Token::EndStmt,
        ])
    );
}

#[test]
fn keywords_take_priority_over_identifiers() {
    assert_eq!(tokenize("Print"), Ok(vec![Token::Print]));
    assert_eq!(tokenize("Printer"), Ok(vec![ident("Printer")]));
    assert_eq!(tokenize("print"), Ok(vec![ident("print")]));
    assert_eq!(tokenize("If_"), Ok(vec![ident("If_")]));
    assert_eq!(tokenize("_If"), Ok(vec![ident("_If")]));
    assert_eq!(tokenize("Loop1"), Ok(vec![ident("Loop1")]));
}

#[test]
fn identifiers_hold_letters_digits_and_underscores() {
    assert_eq!(tokenize("x"), Ok(vec![ident("x")]));
    assert_eq!(tokenize("_tmp_2 a1b2"), Ok(vec![ident("_tmp_2"), ident("a1b2")]));
}

#[test]
fn tokens_need_no_whitespace_between_them() {
    assert_eq!(
        tokenize("a+b->c;"),
        Ok(vec![
            ident("a"),
            Token::Add,
            ident("b"),
            Token::Into,
            ident("c"),
            Token::EndStmt,
        ])
    );
    assert_eq!(
        tokenize("Declare x=5;"),
        Ok(vec![
            Token::Declare,
            ident("x"),
            Token::Assign,
            Token::Number(5),
            Token::EndStmt,
        ])
    );
}

#[test]
fn numbers_are_decimal_and_may_be_signed() {
    assert_eq!(tokenize("0"), Ok(vec![Token::Number(0)]));
    assert_eq!(tokenize("42"), Ok(vec![Token::Number(42)]));
    assert_eq!(tokenize("007"), Ok(vec![Token::Number(7)]));
    assert_eq!(tokenize("-17"), Ok(vec![Token::Number(-17)]));
    assert_eq!(tokenize("+17"), Ok(vec![Token::Number(17)]));
    assert_eq!(tokenize("-0"), Ok(vec![Token::Number(0)]));
}

#[test]
fn a_sign_without_a_digit_is_an_operator() {
    assert_eq!(tokenize("- 5"), Ok(vec![Token::Sub, Token::Number(5)]));
    assert_eq!(tokenize("+ 5"), Ok(vec![Token::Add, Token::Number(5)]));
    assert_eq!(tokenize("-x"), Ok(vec![Token::Sub, ident("x")]));
    assert_eq!(tokenize("--5"), Ok(vec![Token::Sub, Token::Number(-5)]));
    assert_eq!(tokenize("->5"), Ok(vec![Token::Into, Token::Number(5)]));
    assert_eq!(tokenize("-"), Ok(vec![Token::Sub]));
}

#[test]
fn a_number_ends_where_its_digits_end() {
    assert_eq!(tokenize("12abc"), Ok(vec![Token::Number(12), ident("abc")]));
    assert_eq!(tokenize("1-2"), Ok(vec![Token::Number(1), Token::Number(-2)]));
    assert_eq!(tokenize("3;"), Ok(vec![Token::Number(3), Token::EndStmt]));
}

#[test]
fn the_whole_range_of_32_bits_is_accepted() {
    assert_eq!(tokenize("2147483647"), Ok(vec![Token::Number(i32::MAX)]));
    assert_eq!(tokenize("+2147483647"), Ok(vec![Token::Number(i32::MAX)]));
    assert_eq!(tokenize("-2147483648"), Ok(vec![Token::Number(i32::MIN)]));
    assert_eq!(tokenize("0000000002147483647"), Ok(vec![Token::Number(i32::MAX)]));
}

#[test]
fn a_number_out_of_range_is_an_error() {
    assert_eq!(tokenize("2147483648"), Err(LexError::NumberOverflow { position: 0 }));
    assert_eq!(tokenize("-2147483649"), Err(LexError::NumberOverflow { position: 0 }));
    assert_eq!(
        tokenize("Declare x = 99999999999999999999999999;"),
        Err(LexError::NumberOverflow { position: 12 })
    );
    assert_eq!(tokenize("x\n 4294967296"), Err(LexError::NumberOverflow { position: 3 }));
}

#[test]
fn an_unknown_character_is_an_error_with_its_position() {
    assert_eq!(tokenize("#"), Err(LexError::UnexpectedChar { position: 0, found: '#' }));
    assert_eq!(
        tokenize("Print x; ? Print y;"),
        Err(LexError::UnexpectedChar { position: 9, found: '?' })
    );
    assert_eq!(tokenize("a > b"), Err(LexError::UnexpectedChar { position: 2, found: '>' }));
    assert_eq!(tokenize("x.y"), Err(LexError::UnexpectedChar { position: 1, found: '.' }));
}

#[test]
fn positions_count_characters_not_bytes() {
    assert_eq!(
        tokenize("x\u{00A0}\u{3000}é"),
        Err(LexError::UnexpectedChar { position: 3, found: 'é' })
    );
}

#[test]
fn the_first_error_is_the_one_reported() {
    assert_eq!(
        tokenize("@ 99999999999"),
        Err(LexError::UnexpectedChar { position: 0, found: '@' })
    );
    assert_eq!(tokenize("99999999999 @"), Err(LexError::NumberOverflow { position: 0 }));
}

#[test]
fn unicode_whitespace_separates_tokens() {
    assert_eq!(
        tokenize("Print\u{2003}x\u{00A0};\u{000B}\u{000C}"),
        Ok(vec![Token::Print, ident("x"), Token::EndStmt])
    );
}

#[test]
fn identifiers_are_cut_out_behind_characters_of_several_bytes() {
    assert_eq!(
        tokenize("\u{3000}\u{2003}alpha\u{00A0}beta_2 Loop\u{2028}gamma;"),
        Ok(vec![ident("alpha"), ident("beta_2"), Token::Loop, ident("gamma"), Token::EndStmt])
    );
}

#[test]
fn a_line_of_a_program_is_tokenized_in_order() {
    assert_eq!(
        tokenize("If x\n  Print x;\nElse\n  Declare y = -1;\n;"),
        Ok(vec![
            Token::If,
            ident("x"),
            Token::Print,
            ident("x"),
            Token::EndStmt,
            Token::Else,
            Token::Declare,
            ident("y"),
            Token::Assign,
            Token::Number(-1),
            Token::EndStmt,
            Token::EndStmt,
        ])
    );
}
