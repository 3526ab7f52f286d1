use brainrotlang::lexer::{tokenize, Token};
use brainrotlang::parser::{parse, Expr, Statement};

fn s(name: &str) -> String {
    name.to_string()
}

fn ident(name: &str) -> Token {
    Token::Ident(name.to_string())
}

fn parse_text(text: &str) -> Vec<Statement> {
    parse(&tokenize(text).unwrap())
}

fn declare(name: &str, value: i32) -> Statement {
    Statement::Declare(s(name), Expr::Number(value))
}

fn print(name: &str) -> Statement {
    Statement::Print(s(name))
}

#[test]
fn no_tokens_parse_to_no_statements() {
    assert_eq!(parse(&[]), vec![]);
}

#[test]
fn declare_is_parsed() {
    assert_eq!(
        parse(&[Token::Declare, ident("x"), Token::Assign, Token::Number(5), Token::EndStmt]),
        vec![declare("x", 5)]
    );
    assert_eq!(parse_text("Declare total = -12;"), vec![declare("total", -12)]);
}

#[test]
fn each_arithmetic_operator_is_parsed() {
    assert_eq!(parse_text("a + b -> c;"), vec![Statement::Add(s("a"), s("b"), s("c"))]);
    assert_eq!(parse_text("a - b -> c;"), vec![Statement::Sub(s("a"), s("b"), s("c"))]);
    assert_eq!(parse_text("a * b -> c;"), vec![Statement::Mul(s("a"), s("b"), s("c"))]);
    assert_eq!(parse_text("a / b -> c;"), vec![Statement::Div(s("a"), s("b"), s("c"))]);
    assert_eq!(
        parse(&[ident("x"), Token::Add, ident("y"), Token::Into, ident("z"), Token::EndStmt]),
        vec![Statement::Add(s("x"), s("y"), s("z"))]
    );
}

#[test]
fn print_input_and_clear_are_parsed() {
    assert_eq!(parse_text("Print x;"), vec![print("x")]);
    assert_eq!(parse_text("Input y;"), vec![Statement::Input(s("y"))]);
    assert_eq!(parse_text("Clear z;"), vec![Statement::Clear(s("z"))]);
}

#[test]
fn sleep_is_parsed() {
    assert_eq!(parse_text("Sleep 250;"), vec![Statement::Sleep(250)]);
    assert_eq!(parse_text("Sleep 0;"), vec![Statement::Sleep(0)]);
    assert_eq!(parse_text("Sleep 2147483647;"), vec![Statement::Sleep(2147483647)]);
}

#[test]
fn a_negative_sleep_keeps_its_bit_pattern() {
    assert_eq!(parse_text("Sleep -1;"), vec![Statement::Sleep(u64::MAX)]);
    assert_eq!(parse_text("Sleep -5;"), vec![Statement::Sleep((-5i32) as u64)]);
    assert_eq!(
        parse_text("Sleep -2147483648;"),
        vec![Statement::Sleep(0xFFFF_FFFF_8000_0000)]
    );
}

#[test]
fn if_without_else_is_parsed() {
    assert_eq!(
        parse_text("If x Print x; ;"),
        vec![Statement::If { cond: s("x"), then_branch: vec![print("x")], else_branch: vec![] }]
    );
}

#[test]
fn if_with_else_is_parsed() {
    assert_eq!(
        parse_text("If x Print x; Else Declare y = 1; Print y; ;"),
        vec![Statement::If {
            cond: s("x"),
            then_branch: vec![print("x")],
            else_branch: vec![declare("y", 1), print("y")],
        }]
    );
}

#[test]
fn if_with_empty_blocks_is_parsed() {
    assert_eq!(
        parse_text("If x ;"),
        vec![Statement::If { cond: s("x"), then_branch: vec![], else_branch: vec![] }]
    );
    assert_eq!(
        parse_text("If x Else ;"),
        vec![Statement::If { cond: s("x"), then_branch: vec![], else_branch: vec![] }]
    );
    assert_eq!(
        parse_text("If x Else Print y; ;"),
        vec![Statement::If { cond: s("x"), then_branch: vec![], else_branch: vec![print("y")] }]
    );
}

#[test]
fn loop_is_parsed() {
    assert_eq!(
        parse_text("Loop n Declare c = 1; Print c; ;"),
        vec![Statement::Loop { count_var: s("n"), body: vec![declare("c", 1), print("c")] }]
    );
    assert_eq!(parse_text("Loop n ;"), vec![Statement::Loop { count_var: s("n"), body: vec![] }]);
}

#[test]
fn blocks_nest() {
    let text = "Loop n If a Loop m Print x; ; Else If b Print y; ; ; Print z; ; Print w;";
    assert_eq!(
        parse_text(text),
        vec![
            Statement::Loop {
                count_var: s("n"),
                body: vec![
                    Statement::If {
                        cond: s("a"),
                        then_branch: vec![Statement::Loop {
                            count_var: s("m"),
                            body: vec![print("x")],
                        }],
                        else_branch: vec![Statement::If {
                            cond: s("b"),
                            then_branch: vec![print("y")],
                            else_branch: vec![],
                        }],
                    },
                    print("z"),
                ],
            },
            print("w"),
        ]
    );
}

#[test]
fn statements_follow_a_block_statement() {
    assert_eq!(
        parse_text("If x Print a; ; Print b; Loop n Print c; ; Print d;"),
        vec![
            Statement::If { cond: s("x"), then_branch: vec![print("a")], else_branch: vec![] },
            print("b"),
            Statement::Loop { count_var: s("n"), body: vec![print("c")] },
            print("d"),
        ]
    );
}

#[test]
fn a_program_is_parsed_in_order() {
    assert_eq!(
        parse_text("Declare x = 3; Declare y = 4; x + y -> z; Print z;"),
        vec![
            declare("x", 3),
            declare("y", 4),
            Statement::Add(s("x"), s("y"), s("z")),
            print("z"),
        ]
    );
}

#[test]
fn a_malformed_statement_between_two_valid_ones_is_dropped() {
    assert_eq!(
        parse_text("Declare x = 1; Print 5; Print x;"),
        vec![declare("x", 1), print("x")]
    );
    assert_eq!(
        parse_text("Declare x = 1; Declare = 2; Print x;"),
        vec![declare("x", 1), print("x")]
    );
    assert_eq!(
        parse_text("Declare x = 1; x + -> y; Print x;"),
        vec![declare("x", 1), print("x")]
    );
    assert_eq!(
        parse_text("Declare x = 1; x = 2; Print x;"),
        vec![declare("x", 1), print("x")]
    );
    assert_eq!(
        parse_text("Declare x = 1; Sleep x; If 3; Loop; Print x;"),
        vec![declare("x", 1), print("x")]
    );
}

#[test]
fn a_declaration_takes_a_number_only() {
    assert_eq!(parse_text("Declare x = y;"), vec![]);
    assert_eq!(parse_text("Declare x 5;"), vec![]);
    assert_eq!(parse_text("Declare 5 = 5;"), vec![]);
}

#[test]
fn a_statement_needs_its_terminator() {
    assert_eq!(parse_text("Print x"), vec![]);
    assert_eq!(parse_text("Declare x = 5"), vec![]);
    assert_eq!(parse_text("a + b -> c"), vec![]);
    assert_eq!(parse_text("Print x Print y;"), vec![print("y")]);
}

#[test]
fn stray_tokens_are_passed_over() {
    assert_eq!(parse_text("; ; Else -> = 7 + Print x; ;"), vec![print("x")]);
    assert_eq!(parse_text("Print Print x;"), vec![print("x")]);
}

#[test]
fn an_arithmetic_statement_needs_an_operator() {
    assert_eq!(parse_text("a = b -> c;"), vec![]);
    assert_eq!(parse_text("a b c -> d;"), vec![]);
    assert_eq!(parse_text("a + 5 -> c;"), vec![]);
}

#[test]
fn a_malformed_statement_inside_a_block_is_dropped() {
    assert_eq!(
        parse_text("Loop n Print c Declare d = 2; Print d; ;"),
        vec![Statement::Loop { count_var: s("n"), body: vec![declare("d", 2), print("d")] }]
    );
}

#[test]
fn the_terminator_of_a_malformed_statement_closes_no_block() {
    assert_eq!(
        parse_text("Loop n Print 5; Print c; ;"),
        vec![Statement::Loop { count_var: s("n"), body: vec![print("c")] }]
    );
    assert_eq!(
        parse_text("If x Print a; Sleep; Print b; Else Print c; Clear 4; ; Print d;"),
        vec![
            Statement::If {
                cond: s("x"),
                then_branch: vec![print("a"), print("b")],
                else_branch: vec![print("c")],
            },
            print("d"),
        ]
    );
    assert_eq!(
        parse_text("Loop n Print a; x ; ; Print b;"),
        vec![Statement::Loop { count_var: s("n"), body: vec![print("a")] }, print("b")]
    );
}

#[test]
fn a_second_terminator_in_a_row_closes_the_block() {
    assert_eq!(
        parse_text("Loop n Print ; ; Print c;"),
        vec![Statement::Loop { count_var: s("n"), body: vec![] }, print("c")]
    );
    assert_eq!(
        parse_text("Loop n ; ; Print c;"),
        vec![Statement::Loop { count_var: s("n"), body: vec![] }, print("c")]
    );
}

#[test]
fn a_block_statement_needs_its_terminator() {
    assert_eq!(parse(&[Token::If, ident("x")]), vec![]);
    assert_eq!(parse(&[Token::Loop, ident("n")]), vec![]);
    assert_eq!(parse_text("If x"), vec![]);
    assert_eq!(parse_text("Loop n Print c;"), vec![print("c")]);
    assert_eq!(parse_text("If x Print a; Else Print b;"), vec![print("a"), print("b")]);
    assert_eq!(parse_text("If x Print a; Else"), vec![print("a")]);
    assert_eq!(
        parse_text("Loop a Loop b Print x; ;"),
        vec![Statement::Loop { count_var: s("b"), body: vec![print("x")] }]
    );
}

#[test]
fn cut_off_runs_yield_no_statement() {
    assert_eq!(parse(&[Token::Print]), vec![]);
    assert_eq!(parse(&[Token::Print, ident("x")]), vec![]);
    assert_eq!(parse(&[ident("a"), Token::Add]), vec![]);
    assert_eq!(parse(&[Token::If]), vec![]);
    assert_eq!(parse(&[Token::If, ident("x"), Token::Else]), vec![]);
    assert_eq!(parse(&[Token::Declare, ident("x"), Token::Assign, Token::Number(1)]), vec![]);
}

#[test]
fn a_block_head_in_a_malformed_run_takes_nothing_in() {
    assert_eq!(
        parse_text("Print a; Loop x Declare ; Print b;"),
        vec![print("a"), print("b")]
    );
    assert_eq!(
        parse_text("Print a; If x Sleep ; Print b; Print c;"),
        vec![print("a"), print("b"), print("c")]
    );
}

#[test]
fn else_closes_the_first_block_of_an_if_only() {
    assert_eq!(
        parse_text("Loop n Print a; Else Print b; ;"),
        vec![Statement::Loop { count_var: s("n"), body: vec![print("a"), print("b")] }]
    );
    assert_eq!(
        parse_text("If x Print a; Else Print b; Else Print c; ;"),
        vec![Statement::If {
            cond: s("x"),
            then_branch: vec![print("a")],
            else_branch: vec![print("b"), print("c")],
        }]
    );
}

#[test]
fn an_inner_block_is_closed_before_an_outer_one() {
    assert_eq!(
        parse_text("If a If b Print x; Else Print y; ; Else Print z; ;"),
        vec![Statement::If {
            cond: s("a"),
            then_branch: vec![Statement::If {
                cond: s("b"),
                then_branch: vec![print("x")],
                else_branch: vec![print("y")],
            }],
            else_branch: vec![print("z")],
        }]
    );
}

#[test]
fn if_and_loop_need_a_name() {
    assert_eq!(parse_text("If 1 Print x; ;"), vec![print("x")]);
    assert_eq!(parse_text("Loop 3 Print x; ;"), vec![print("x")]);
    assert_eq!(parse_text("If"), vec![]);
    assert_eq!(parse_text("Loop"), vec![]);
}

#[test]
fn deep_nesting_is_parsed() {
    let depth = 200;
    let mut text = String::new();
    for _ in 0..depth {
        text.push_str("Loop n ");
    }
    text.push_str("Print x; ");
    for _ in 0..depth {
        text.push_str("; ");
    }
    let mut expected = print("x");
    for _ in 0..depth {
        expected = Statement::Loop { count_var: s("n"), body: vec![expected] };
    }
    assert_eq!(parse_text(&text), vec![expected]);
}

#[test]
fn many_unclosed_blocks_are_passed_over_quickly() {
    let depth = 400;
    let mut text = String::new();
    for _ in 0..depth {
        text.push_str("If x Loop n ");
    }
    text.push_str("Print x;");
    assert_eq!(parse_text(&text), vec![print("x")]);
}

/// The number of statements in `stmts`, at every depth.
fn count(stmts: &[Statement]) -> usize {
    stmts
        .iter()
        .map(|stmt| match stmt {
            Statement::If { then_branch, else_branch, .. } => {
                1 + count(then_branch) + count(else_branch)
            }
            Statement::Loop { body, .. } => 1 + count(body),
            _ => 1,
        })
        .sum()
}

#[test]
fn every_statement_takes_three_tokens_at_least() {
    let texts = [
        "If x ;",
        "If x Else ;",
        "Loop n ;",
        "Loop n Loop n Loop n ; ; ;",
        "If a If b ; Else Loop c ; ; ;",
        "Print x; Input y; Clear z; Sleep 1;",
        "If x",
        "Loop n Print x",
        "If x Else",
        "; ; ; Print Print Print x;",
    ];
    for text in texts {
        let tokens = tokenize(text).unwrap();
        let stmts = parse(&tokens);
        assert!(3 * count(&stmts) <= tokens.len(), "program {:?}", text);
    }
    assert_eq!(count(&parse_text("Loop n Loop n Loop n ; ; ;")), 3);
    assert_eq!(count(&parse_text("If a If b ; Else Loop c ; ; ;")), 3);
}

/// The identifiers and numbers that `stmts` are written with, at every
/// depth.
fn ingredients(stmts: &[Statement], into: &mut Vec<Token>) {
    for stmt in stmts {
        match stmt {
            Statement::Declare(name, Expr::Number(n)) => {
                into.push(ident(name));
                into.push(Token::Number(*n));
            }
            Statement::Declare(name, Expr::Ident(source)) => {
                into.push(ident(name));
                into.push(ident(source));
            }
            Statement::Add(a, b, c)
            | Statement::Sub(a, b, c)
            | Statement::Mul(a, b, c)
            | Statement::Div(a, b, c) => {
                into.push(ident(a));
                into.push(ident(b));
                into.push(ident(c));
            }
            Statement::Print(name) | Statement::Input(name) | Statement::Clear(name) => {
                into.push(ident(name));
            }
            Statement::Sleep(ms) => into.push(Token::Number(*ms as i32)),
            Statement::If { cond, then_branch, else_branch } => {
                into.push(ident(cond));
                ingredients(then_branch, into);
                ingredients(else_branch, into);
            }
            Statement::Loop { count_var, body } => {
                into.push(ident(count_var));
                ingredients(body, into);
            }
        }
    }
}

#[test]
fn every_name_and_number_of_a_program_stands_in_its_tokens() {
    let texts = [
        "Declare x = 5; Sleep -3; a * b -> c; Print 7; If k Loop m Input z; ; Else Clear w; ;",
        "Loop n junk 4 ; Print p; ; If q",
        "Sleep 2147483647; Sleep -2147483648; Declare lo = -2147483648;",
    ];
    for text in texts {
        let tokens = tokenize(text).unwrap();
        let mut found = Vec::new();
        ingredients(&parse(&tokens), &mut found);
        assert!(!found.is_empty());
        for token in found {
            assert!(tokens.contains(&token), "{:?} in {:?}", token, text);
        }
    }
}
