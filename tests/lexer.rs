use din::grammar::Category;
use din::lexer::{scan, scan_id, scan_int, skip_whitespace, vecs_match, LexError, Token};

fn chars(s: &str) -> Vec<char> {
    s.chars().collect()
}

fn tok(lexeme: &str, category: Category) -> Token {
    Token { lexeme: String::from(lexeme), category }
}

#[test]
fn skip_space() {
    let input = "    7".chars().collect();
    let output: Vec<char> = skip_whitespace(input);
    let expected_output = "7".chars().collect();

    assert!(vecs_match(&output, &expected_output))
}

#[test]
fn skip_newline() {
    let input = r#"




        7"#
    .chars()
    .collect();
    let output = skip_whitespace(input);
    let expected_output = "7".chars().collect();

    assert!(vecs_match(&output, &expected_output))
}

#[test]
fn simple() {
    let input = "9 + 8".chars().collect();
    let output = scan(input).unwrap();
    let expected_output = vec![
        Token { lexeme: String::from("9"), category: Category::LiteralInt },
        Token { lexeme: String::from("+"), category: Category::Plus },
        Token { lexeme: String::from("8"), category: Category::LiteralInt },
    ];

    assert!(vecs_match(&output, &expected_output))
}

#[test]
fn simple_two() {
    let input = "90 + 80".chars().collect();
    let output = scan(input).unwrap();
    let expected_output = vec![
        Token { lexeme: String::from("90"), category: Category::LiteralInt },
        Token { lexeme: String::from("+"), category: Category::Plus },
        Token { lexeme: String::from("80"), category: Category::LiteralInt },
    ];

    assert!(vecs_match(&output, &expected_output))
}

#[test]
fn complex() {
    let input = "2 + 3 * 5 - 8 / 3".chars().collect();
    let output = scan(input).unwrap();
    let expected_output = vec![
        Token { lexeme: String::from("2"), category: Category::LiteralInt },
        Token { lexeme: String::from("+"), category: Category::Plus },
        Token { lexeme: String::from("3"), category: Category::LiteralInt },
        Token { lexeme: String::from("*"), category: Category::Star },
        Token { lexeme: String::from("5"), category: Category::LiteralInt },
        Token { lexeme: String::from("-"), category: Category::Minus },
        Token { lexeme: String::from("8"), category: Category::LiteralInt },
        Token { lexeme: String::from("/"), category: Category::Slash },
        Token { lexeme: String::from("3"), category: Category::LiteralInt },
    ];

    assert!(vecs_match(&output, &expected_output))
}

#[test]
fn complex_two() {
    let input = "22 + 33 * 55 - 88 / 33".chars().collect();
    let output = scan(input).unwrap();
    let expected_output = vec![
        Token { lexeme: String::from("22"), category: Category::LiteralInt },
        Token { lexeme: String::from("+"), category: Category::Plus },
        Token { lexeme: String::from("33"), category: Category::LiteralInt },
        Token { lexeme: String::from("*"), category: Category::Star },
        Token { lexeme: String::from("55"), category: Category::LiteralInt },
        Token { lexeme: String::from("-"), category: Category::Minus },
        Token { lexeme: String::from("88"), category: Category::LiteralInt },
        Token { lexeme: String::from("/"), category: Category::Slash },
        Token { lexeme: String::from("33"), category: Category::LiteralInt },
    ];

    assert!(vecs_match(&output, &expected_output))
}

#[test]
fn complex_three() {
    let input = r#"
        23 +
        18 -
        45 * 2
        / 18
        "#
    .chars()
    .collect();
    let output = scan(input).unwrap();
    let expected_output = vec![
        Token { lexeme: String::from("23"), category: Category::LiteralInt },
        Token { lexeme: String::from("+"), category: Category::Plus },
        Token { lexeme: String::from("18"), category: Category::LiteralInt },
        Token { lexeme: String::from("-"), category: Category::Minus },
        Token { lexeme: String::from("45"), category: Category::LiteralInt },
        Token { lexeme: String::from("*"), category: Category::Star },
        Token { lexeme: String::from("2"), category: Category::LiteralInt },
        Token { lexeme: String::from("/"), category: Category::Slash },
        Token { lexeme: String::from("18"), category: Category::LiteralInt },
    ];

    assert!(vecs_match(&output, &expected_output))
}

#[test]
fn empty_and_blank_inputs_give_no_tokens() {
    assert!(scan(chars("")).unwrap().is_empty());
    assert!(scan(chars(" \t\r\n  ")).unwrap().is_empty());
    assert!(skip_whitespace(chars("")).is_empty());
    assert!(skip_whitespace(chars(" \n\t\r")).is_empty());
}

#[test]
fn skip_whitespace_keeps_inner_spaces() {
    let output = skip_whitespace(chars(" \t a b "));
    assert_eq!(output, chars("a b "));
}

#[test]
fn digit_run_is_one_literal() {
    let output = scan(chars("123")).unwrap();
    assert_eq!(output, vec![tok("123", Category::LiteralInt)]);
    let output = scan(chars("0012+3")).unwrap();
    assert_eq!(
        output,
        vec![
            tok("0012", Category::LiteralInt),
            tok("+", Category::Plus),
            tok("3", Category::LiteralInt)
        ]
    );
}

#[test]
fn keywords_and_identifiers() {
    let output = scan(chars("int main ( ) { return 0 ; }")).unwrap();
    let expected = vec![
        tok("int", Category::KeywordTypeInt),
        tok("main", Category::KeywordMain),
        tok("(", Category::PuncLeftParen),
        tok(")", Category::PuncRightParen),
        tok("{", Category::PuncLeftBrace),
        tok("return", Category::KeywordReturn),
        tok("0", Category::LiteralInt),
        tok(";", Category::PuncSemiColon),
        tok("}", Category::PuncRightBrace),
    ];
    assert!(vecs_match(&output, &expected));
}

#[test]
fn keyword_prefix_is_an_identifier() {
    assert_eq!(scan(chars("intx")).unwrap(), vec![tok("intx", Category::Identifier)]);
    assert_eq!(scan(chars("in")).unwrap(), vec![tok("in", Category::Identifier)]);
    assert_eq!(scan(chars("Int")).unwrap(), vec![tok("Int", Category::Identifier)]);
    assert_eq!(scan(chars("returns")).unwrap(), vec![tok("returns", Category::Identifier)]);
}

#[test]
fn void_is_a_keyword() {
    assert_eq!(scan(chars("void")).unwrap(), vec![tok("void", Category::KeywordVoid)]);
}

#[test]
fn identifiers_may_hold_digits() {
    let output = scan(chars("x1 + Ab2c")).unwrap();
    assert_eq!(
        output,
        vec![
            tok("x1", Category::Identifier),
            tok("+", Category::Plus),
            tok("Ab2c", Category::Identifier)
        ]
    );
    let output = scan(chars("1x")).unwrap();
    assert_eq!(output, vec![tok("1", Category::LiteralInt), tok("x", Category::Identifier)]);
}

#[test]
fn whitespace_is_invisible() {
    let expected = vec![
        tok("9", Category::LiteralInt),
        tok("+", Category::Plus),
        tok("8", Category::LiteralInt),
    ];
    assert_eq!(scan(chars("9 + 8")).unwrap(), expected);
    assert_eq!(scan(chars("9+8")).unwrap(), expected);
    assert_eq!(scan(chars("9\n+\t8")).unwrap(), expected);
}

#[test]
fn single_characters_map_to_fixed_categories() {
    let table = [
        ("+", Category::Plus),
        ("-", Category::Minus),
        ("*", Category::Star),
        ("/", Category::Slash),
        ("(", Category::PuncLeftParen),
        (")", Category::PuncRightParen),
        ("{", Category::PuncLeftBrace),
        ("}", Category::PuncRightBrace),
        (";", Category::PuncSemiColon),
    ];
    for (text, category) in table {
        assert_eq!(scan(chars(text)).unwrap(), vec![tok(text, category)]);
    }
}

#[test]
fn arithmetic_scenario() {
    let output = scan(chars("2 + 3 * 5 - 8 / 3")).unwrap();
    let kinds: Vec<Category> = output.iter().map(|t| t.category).collect();
    assert_eq!(
        kinds,
        vec![
            Category::LiteralInt,
            Category::Plus,
            Category::LiteralInt,
            Category::Star,
            Category::LiteralInt,
            Category::Minus,
            Category::LiteralInt,
            Category::Slash,
            Category::LiteralInt
        ]
    );
}

#[test]
fn unrecognized_characters_are_errors() {
    assert_eq!(
        scan(chars("1 # 2")),
        Err(LexError::UnrecognizedCharacter { character: '#', offset: 2 })
    );
    assert_eq!(
        scan(chars("x@y")),
        Err(LexError::UnrecognizedCharacter { character: '@', offset: 1 })
    );
    assert_eq!(
        scan(chars("@")),
        Err(LexError::UnrecognizedCharacter { character: '@', offset: 0 })
    );
}

#[test]
fn first_unrecognized_character_wins() {
    assert_eq!(
        scan(chars("a $ # b")),
        Err(LexError::UnrecognizedCharacter { character: '$', offset: 2 })
    );
}

#[test]
fn non_ascii_and_other_whitespace_are_rejected() {
    assert_eq!(
        scan(chars("1 é")),
        Err(LexError::UnrecognizedCharacter { character: 'é', offset: 2 })
    );
    assert_eq!(
        scan(chars("1\u{b}2")),
        Err(LexError::UnrecognizedCharacter { character: '\u{b}', offset: 1 })
    );
}

#[test]
fn leading_whitespace_changes_no_token() {
    let plain = scan(chars("int x;")).unwrap();
    let padded = scan(chars(" \n\t int x;")).unwrap();
    assert_eq!(plain, padded);
    let padded_inside = scan(chars("int   \n x  ;")).unwrap();
    assert_eq!(plain, padded_inside);
}

#[test]
fn leading_whitespace_moves_error_offset() {
    assert_eq!(
        scan(chars("#")),
        Err(LexError::UnrecognizedCharacter { character: '#', offset: 0 })
    );
    assert_eq!(
        scan(chars("   #")),
        Err(LexError::UnrecognizedCharacter { character: '#', offset: 3 })
    );
}

#[test]
fn scanners_skip_leading_whitespace_and_take_longest_run() {
    let input = chars("  42x");
    let (t, end) = scan_int(&input, 0);
    assert_eq!(t, tok("42", Category::LiteralInt));
    assert_eq!(end, 4);

    let input = chars(" \n return1 ;");
    let (t, end) = scan_id(&input, 0);
    assert_eq!(t, tok("return1", Category::Identifier));
    assert_eq!(end, 10);

    let input = chars("a return;");
    let (t, end) = scan_id(&input, 1);
    assert_eq!(t, tok("return", Category::KeywordReturn));
    assert_eq!(end, 8);
}

#[test]
fn vecs_match_compares_lengths_and_items() {
    assert!(vecs_match(&vec![1, 2, 3], &vec![1, 2, 3]));
    assert!(!vecs_match(&vec![1, 2, 3], &vec![1, 2]));
    assert!(!vecs_match(&vec![1, 2], &vec![1, 2, 3]));
    assert!(!vecs_match(&vec![1, 2, 3], &vec![1, 5, 3]));
    assert!(vecs_match::<i32>(&vec![], &vec![]));
}
