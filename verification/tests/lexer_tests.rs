use lextable::error::LexerError;
use lextable::scanner::TableIterator;
use lextable::table::Table;

/// Drains a token stream into a vector, stopping at the first error, as a
/// caller collecting into `Result` would.
fn collect_tokens<'a, T>(
    mut iter: TableIterator<'a, T>,
) -> Result<Vec<(&'a T, &'a str)>, LexerError> {
    let mut out = Vec::new();
    while let Some(item) = iter.next() {
        match item {
            Ok(tok) => out.push(tok),
            Err(e) => return Err(e),
        }
    }
    Ok(out)
}

#[test]
fn lexer_basic_expression() {
    #[derive(Debug, Clone, PartialEq)]
    enum Kind {
        Number,
        Add,
        Sub,
        Mul,
        Div,
    }

    let mut t = Table::new("0123456789+-*/".to_string());
    t.add("[0123456789]+", Kind::Number).unwrap();
    t.add("+", Kind::Add).unwrap();
    t.add("-", Kind::Sub).unwrap();
    t.add("*", Kind::Mul).unwrap();
    t.add("/", Kind::Div).unwrap();

    let iter = t.lexer("1+2*3").unwrap();
    let tokens = collect_tokens(iter).unwrap();

    assert_eq!(tokens.len(), 5);
    assert_eq!(tokens[0], (&Kind::Number, "1"));
    assert_eq!(tokens[1], (&Kind::Add, "+"));
    assert_eq!(tokens[2], (&Kind::Number, "2"));
    assert_eq!(tokens[3], (&Kind::Mul, "*"));
    assert_eq!(tokens[4], (&Kind::Number, "3"));
}

#[test]
fn lexer_single_token() {
    #[derive(Debug, Clone, PartialEq)]
    enum Kind {
        Word,
    }

    let mut t = Table::new("abcdefghijklmnopqrstuvwxyz".to_string());
    t.add("[abcdefghijklmnopqrstuvwxyz]+", Kind::Word).unwrap();

    let tokens = collect_tokens(t.lexer("hello").unwrap()).unwrap();

    assert_eq!(tokens.len(), 1);
    assert_eq!(tokens[0], (&Kind::Word, "hello"));
}

#[test]
fn lexer_empty_input() {
    #[derive(Debug, Clone, PartialEq)]
    enum Kind {
        Number,
    }

    let mut t = Table::new("0123456789".to_string());
    t.add("[0123456789]+", Kind::Number).unwrap();

    let tokens = collect_tokens(t.lexer("").unwrap()).unwrap();

    assert!(tokens.is_empty());
}

#[test]
fn lexer_manual_iteration() {
    #[derive(Debug, Clone, PartialEq)]
    enum Kind {
        A,
        B,
    }

    let mut t = Table::new("ab".to_string());
    t.add("a", Kind::A).unwrap();
    t.add("b", Kind::B).unwrap();

    let mut iter = t.lexer("aba").unwrap();

    let (kind, content) = iter.next().unwrap().unwrap();
    assert_eq!(kind, &Kind::A);
    assert_eq!(content, "a");

    let (kind, content) = iter.next().unwrap().unwrap();
    assert_eq!(kind, &Kind::B);
    assert_eq!(content, "b");

    let (kind, content) = iter.next().unwrap().unwrap();
    assert_eq!(kind, &Kind::A);
    assert_eq!(content, "a");

    assert!(iter.next().is_none());
}

#[test]
fn lexer_longest_match_numbers() {
    #[derive(Debug, Clone, PartialEq)]
    enum Kind {
        Number,
        Add,
    }

    let mut t = Table::new("0123456789+".to_string());
    t.add("[0123456789]+", Kind::Number).unwrap();
    t.add("+", Kind::Add).unwrap();

    let tokens = collect_tokens(t.lexer("123+456").unwrap()).unwrap();

    assert_eq!(tokens.len(), 3);
    assert_eq!(tokens[0], (&Kind::Number, "123"));
    assert_eq!(tokens[1], (&Kind::Add, "+"));
    assert_eq!(tokens[2], (&Kind::Number, "456"));
}

#[test]
fn lexer_longest_match_overlapping_literals() {
    #[derive(Debug, Clone, PartialEq)]
    enum Kind {
        Eq,
        EqEq,
    }

    let mut t = Table::new("=".to_string());
    t.add("=", Kind::Eq).unwrap();
    t.add("==", Kind::EqEq).unwrap();

    // "==" should match as EqEq
    let tokens = collect_tokens(t.lexer("==").unwrap()).unwrap();
    assert_eq!(tokens.len(), 1);
    assert_eq!(tokens[0], (&Kind::EqEq, "=="));

    // "=" should match as Eq
    let tokens = collect_tokens(t.lexer("=").unwrap()).unwrap();
    assert_eq!(tokens.len(), 1);
    assert_eq!(tokens[0], (&Kind::Eq, "="));

    // "===" should be EqEq + Eq
    let tokens = collect_tokens(t.lexer("===").unwrap()).unwrap();
    assert_eq!(tokens.len(), 2);
    assert_eq!(tokens[0], (&Kind::EqEq, "=="));
    assert_eq!(tokens[1], (&Kind::Eq, "="));
}

#[test]
fn lexer_longest_match_backtrack() {
    #[derive(Debug, Clone, PartialEq)]
    enum Kind {
        Ab,
        Abc,
        X,
    }

    let mut t = Table::new("abcx".to_string());
    t.add("ab", Kind::Ab).unwrap();
    t.add("abc", Kind::Abc).unwrap();
    t.add("x", Kind::X).unwrap();

    // "abx" - matches "ab" then "x" (not "abc" partial)
    let tokens = collect_tokens(t.lexer("abx").unwrap()).unwrap();
    assert_eq!(tokens.len(), 2);
    assert_eq!(tokens[0], (&Kind::Ab, "ab"));
    assert_eq!(tokens[1], (&Kind::X, "x"));
}

#[test]
fn lexer_longest_match_greedy() {
    #[derive(Debug, Clone, PartialEq)]
    enum Kind {
        A,
        Aa,
        Aaa,
    }

    let mut t = Table::new("a".to_string());
    t.add("a", Kind::A).unwrap();
    t.add("aa", Kind::Aa).unwrap();
    t.add("aaa", Kind::Aaa).unwrap();

    let tokens = collect_tokens(t.lexer("aaa").unwrap()).unwrap();
    assert_eq!(tokens.len(), 1);
    assert_eq!(tokens[0], (&Kind::Aaa, "aaa"));

    let tokens = collect_tokens(t.lexer("aaaa").unwrap()).unwrap();
    assert_eq!(tokens.len(), 2);
    assert_eq!(tokens[0], (&Kind::Aaa, "aaa"));
    assert_eq!(tokens[1], (&Kind::A, "a"));

    let tokens = collect_tokens(t.lexer("aaaaa").unwrap()).unwrap();
    assert_eq!(tokens.len(), 2);
    assert_eq!(tokens[0], (&Kind::Aaa, "aaa"));
    assert_eq!(tokens[1], (&Kind::Aa, "aa"));
}

#[test]
fn lexer_error_unknown_char_immediate() {
    // the scanner reports an error as soon as it meets a byte outside the
    // alphabet, even in the middle of a partial match
    #[derive(Debug, Clone, PartialEq)]
    enum Kind {
        Number,
    }

    let mut t = Table::new("0123456789".to_string());
    t.add("[0123456789]+", Kind::Number).unwrap();

    let mut iter = t.lexer("12@34").unwrap();

    // immediate error on '@'; the pending "12" is not emitted first
    let err = iter.next().unwrap().unwrap_err();
    assert_eq!(err, LexerError::UnknownChar { char: '@', position: 2 });
}

#[test]
fn lexer_error_unknown_char_at_start() {
    #[derive(Debug, Clone, PartialEq)]
    enum Kind {
        Number,
    }

    let mut t = Table::new("0123456789".to_string());
    t.add("[0123456789]+", Kind::Number).unwrap();

    let mut iter = t.lexer("@123").unwrap();

    let err = iter.next().unwrap().unwrap_err();
    assert_eq!(err, LexerError::UnknownChar { char: '@', position: 0 });
}

#[test]
fn lexer_error_unknown_char_after_valid_token() {
    #[derive(Debug, Clone, PartialEq)]
    enum Kind {
        A,
        B,
    }

    let mut t = Table::new("ab".to_string());
    t.add("a", Kind::A).unwrap();
    t.add("b", Kind::B).unwrap();

    let mut iter = t.lexer("a@b").unwrap();

    let err = iter.next().unwrap().unwrap_err();
    assert_eq!(err, LexerError::UnknownChar { char: '@', position: 1 });
}

#[test]
fn lexer_error_unexpected_end_no_pattern() {
    #[derive(Debug, Clone, PartialEq)]
    enum Kind {
        Abc,
    }

    let mut t = Table::new("abcdef".to_string());
    t.add("abc", Kind::Abc).unwrap();

    let mut iter = t.lexer("abcdef").unwrap();

    // "abc" matches
    let (kind, content) = iter.next().unwrap().unwrap();
    assert_eq!(kind, &Kind::Abc);
    assert_eq!(content, "abc");

    // "def" is in alphabet but no pattern matches
    let err = iter.next().unwrap().unwrap_err();
    assert_eq!(err, LexerError::UnexpectedEnd { position: 3 });
}

#[test]
fn lexer_error_unexpected_end_at_start() {
    #[derive(Debug, Clone, PartialEq)]
    enum Kind {
        Abc,
    }

    let mut t = Table::new("abcdef".to_string());
    t.add("abc", Kind::Abc).unwrap();

    let mut iter = t.lexer("def").unwrap();

    // "def" starts with 'd' which has no transition from root
    let err = iter.next().unwrap().unwrap_err();
    assert_eq!(err, LexerError::UnexpectedEnd { position: 0 });
}

#[test]
fn lexer_error_invalid_string_non_ascii() {
    #[derive(Debug, Clone, PartialEq)]
    enum Kind {
        Word,
    }

    let mut t = Table::new("abc".to_string());
    t.add("[abc]+", Kind::Word).unwrap();

    let result = t.lexer("héllo");
    assert!(matches!(result, Err(LexerError::InvalidString(_))));
}

#[test]
fn lexer_error_invalid_string_emoji() {
    #[derive(Debug, Clone, PartialEq)]
    enum Kind {
        Word,
    }

    let mut t = Table::new("abc".to_string());
    t.add("[abc]+", Kind::Word).unwrap();

    let result = t.lexer("abc😀");
    assert!(matches!(result, Err(LexerError::InvalidString(_))));
}

#[test]
fn lexer_with_whitespace_in_alphabet() {
    #[derive(Debug, Clone, PartialEq)]
    enum Kind {
        Number,
        Space,
    }

    let mut t = Table::new("0123456789 ".to_string());
    t.add("[0123456789]+", Kind::Number).unwrap();
    t.add(" +", Kind::Space).unwrap();

    let tokens = collect_tokens(t.lexer("1 2  3").unwrap()).unwrap();

    assert_eq!(tokens.len(), 5);
    assert_eq!(tokens[0], (&Kind::Number, "1"));
    assert_eq!(tokens[1], (&Kind::Space, " "));
    assert_eq!(tokens[2], (&Kind::Number, "2"));
    assert_eq!(tokens[3], (&Kind::Space, "  "));
    assert_eq!(tokens[4], (&Kind::Number, "3"));
}

#[test]
fn lexer_whitespace_not_in_alphabet_immediate_error() {
    // immediate error on a space outside the alphabet
    #[derive(Debug, Clone, PartialEq)]
    enum Kind {
        Number,
    }

    let mut t = Table::new("0123456789".to_string());
    t.add("[0123456789]+", Kind::Number).unwrap();

    let mut iter = t.lexer("1 2").unwrap();

    // immediate error; "1" is not emitted first
    let err = iter.next().unwrap().unwrap_err();
    assert_eq!(err, LexerError::UnknownChar { char: ' ', position: 1 });
}

#[test]
fn lexer_identifier_and_numbers_separate_alphabets() {
    // non-overlapping alphabets avoid any ambiguity
    #[derive(Debug, Clone, PartialEq)]
    enum Kind {
        Ident,
        Number,
        Eq,
    }

    let mut t = Table::new("abcxyz0123456789=".to_string());
    t.add("[abcxyz]+", Kind::Ident).unwrap();
    t.add("[0123456789]+", Kind::Number).unwrap();
    t.add("=", Kind::Eq).unwrap();

    let tokens = collect_tokens(t.lexer("x=42").unwrap()).unwrap();

    assert_eq!(tokens.len(), 3);
    assert_eq!(tokens[0], (&Kind::Ident, "x"));
    assert_eq!(tokens[1], (&Kind::Eq, "="));
    assert_eq!(tokens[2], (&Kind::Number, "42"));
}

#[test]
fn lexer_multiple_operators() {
    #[derive(Debug, Clone, PartialEq)]
    enum Kind {
        Lt,
        Le,
        Gt,
        Ge,
        Eq,
        EqEq,
        Not,
        Ne,
    }

    let mut t = Table::new("<=!>".to_string());
    t.add("<", Kind::Lt).unwrap();
    t.add("<=", Kind::Le).unwrap();
    t.add(">", Kind::Gt).unwrap();
    t.add(">=", Kind::Ge).unwrap();
    t.add("=", Kind::Eq).unwrap();
    t.add("==", Kind::EqEq).unwrap();
    t.add("!", Kind::Not).unwrap();
    t.add("!=", Kind::Ne).unwrap();

    let tokens = collect_tokens(t.lexer("<=>=!===!=").unwrap()).unwrap();

    assert_eq!(tokens.len(), 5);
    assert_eq!(tokens[0], (&Kind::Le, "<="));
    assert_eq!(tokens[1], (&Kind::Ge, ">="));
    assert_eq!(tokens[2], (&Kind::Ne, "!="));
    assert_eq!(tokens[3], (&Kind::EqEq, "=="));
    assert_eq!(tokens[4], (&Kind::Ne, "!="));
}

#[test]
fn lexer_hex_numbers() {
    #[derive(Debug, Clone, PartialEq)]
    enum Kind {
        Hex,
    }

    let mut t = Table::new("0123456789abcdef".to_string());
    t.add("[0123456789abcdef]+", Kind::Hex).unwrap();

    let tokens = collect_tokens(t.lexer("deadbeef").unwrap()).unwrap();

    assert_eq!(tokens.len(), 1);
    assert_eq!(tokens[0], (&Kind::Hex, "deadbeef"));
}

#[test]
fn lexer_single_char_tokens() {
    #[derive(Debug, Clone, PartialEq)]
    enum Kind {
        A,
    }

    let mut t = Table::new("a".to_string());
    t.add("a", Kind::A).unwrap();

    let tokens = collect_tokens(t.lexer("aaa").unwrap()).unwrap();

    assert_eq!(tokens.len(), 3);
    assert_eq!(tokens[0], (&Kind::A, "a"));
    assert_eq!(tokens[1], (&Kind::A, "a"));
    assert_eq!(tokens[2], (&Kind::A, "a"));
}

#[test]
fn lexer_very_long_token() {
    #[derive(Debug, Clone, PartialEq)]
    enum Kind {
        A,
    }

    let mut t = Table::new("a".to_string());
    t.add("a+", Kind::A).unwrap();

    let long_input = "a".repeat(10000);
    let tokens = collect_tokens(t.lexer(&long_input).unwrap()).unwrap();

    assert_eq!(tokens.len(), 1);
    assert_eq!(tokens[0].0, &Kind::A);
    assert_eq!(tokens[0].1.len(), 10000);
}

#[test]
fn lexer_alternating_tokens() {
    #[derive(Debug, Clone, PartialEq)]
    enum Kind {
        A,
        B,
    }

    let mut t = Table::new("ab".to_string());
    t.add("a+", Kind::A).unwrap();
    t.add("b+", Kind::B).unwrap();

    let tokens = collect_tokens(t.lexer("aaabbbaaab").unwrap()).unwrap();

    assert_eq!(tokens.len(), 4);
    assert_eq!(tokens[0], (&Kind::A, "aaa"));
    assert_eq!(tokens[1], (&Kind::B, "bbb"));
    assert_eq!(tokens[2], (&Kind::A, "aaa"));
    assert_eq!(tokens[3], (&Kind::B, "b"));
}

#[test]
fn lexer_partial_match_at_end() {
    #[derive(Debug, Clone, PartialEq)]
    enum Kind {
        Abc,
    }

    let mut t = Table::new("abc".to_string());
    t.add("abc", Kind::Abc).unwrap();

    // "abcab" - first "abc" matches, then "ab" is partial with no match
    let mut iter = t.lexer("abcab").unwrap();

    let (kind, content) = iter.next().unwrap().unwrap();
    assert_eq!(kind, &Kind::Abc);
    assert_eq!(content, "abc");

    // "ab" has no complete match
    let err = iter.next().unwrap().unwrap_err();
    assert_eq!(err, LexerError::UnexpectedEnd { position: 3 });
}

#[test]
fn lexer_empty_table() {
    #[derive(Debug, Clone, PartialEq)]
    enum Kind {}

    let t: Table<Kind> = Table::new("abc".to_string());

    let mut iter = t.lexer("abc").unwrap();

    // No patterns defined, should fail immediately
    let err = iter.next().unwrap().unwrap_err();
    assert_eq!(err, LexerError::UnexpectedEnd { position: 0 });
}

#[test]
fn lexer_collect_result_success() {
    #[derive(Debug, Clone, PartialEq)]
    enum Kind {
        Num,
        Op,
    }

    let mut t = Table::new("0123456789+".to_string());
    t.add("[0123456789]+", Kind::Num).unwrap();
    t.add("+", Kind::Op).unwrap();

    let result = collect_tokens(t.lexer("1+2").unwrap());
    assert!(result.is_ok());
    assert_eq!(result.unwrap().len(), 3);
}

#[test]
fn lexer_collect_result_failure() {
    #[derive(Debug, Clone, PartialEq)]
    enum Kind {
        Num,
        Op,
    }

    let mut t = Table::new("0123456789+".to_string());
    t.add("[0123456789]+", Kind::Num).unwrap();
    t.add("+", Kind::Op).unwrap();

    let result = collect_tokens(t.lexer("1@2").unwrap());
    assert!(result.is_err());
}

#[test]
fn lexer_only_repetition() {
    #[derive(Debug, Clone, PartialEq)]
    enum Kind {
        Stars,
    }

    let mut t = Table::new("*".to_string());
    t.add("*+", Kind::Stars).unwrap();

    let tokens = collect_tokens(t.lexer("****").unwrap()).unwrap();

    assert_eq!(tokens.len(), 1);
    assert_eq!(tokens[0], (&Kind::Stars, "****"));
}

#[test]
fn lexer_mixed_fixed_and_repetition() {
    #[derive(Debug, Clone, PartialEq)]
    enum Kind {
        Prefix,
        Suffix,
    }

    let mut t = Table::new("ab".to_string());
    t.add("a+b", Kind::Prefix).unwrap(); // one or more 'a' followed by 'b'

    let tokens = collect_tokens(t.lexer("aaab").unwrap()).unwrap();
    assert_eq!(tokens.len(), 1);
    assert_eq!(tokens[0], (&Kind::Prefix, "aaab"));

    let tokens = collect_tokens(t.lexer("ab").unwrap()).unwrap();
    assert_eq!(tokens.len(), 1);
    assert_eq!(tokens[0], (&Kind::Prefix, "ab"));
}

#[test]
fn lexer_arithmetic_expression() {
    #[derive(Debug, Clone, PartialEq)]
    enum Kind {
        Num,
        Add,
        Sub,
        Mul,
        Div,
        LParen,
        RParen,
    }

    let mut t = Table::new("0123456789+-*/()".to_string());
    t.add("[0123456789]+", Kind::Num).unwrap();
    t.add("+", Kind::Add).unwrap();
    t.add("-", Kind::Sub).unwrap();
    t.add("*", Kind::Mul).unwrap();
    t.add("/", Kind::Div).unwrap();
    t.add("(", Kind::LParen).unwrap();
    t.add(")", Kind::RParen).unwrap();

    let tokens = collect_tokens(t.lexer("(1+2)*3").unwrap()).unwrap();

    assert_eq!(tokens.len(), 7);
    assert_eq!(tokens[0], (&Kind::LParen, "("));
    assert_eq!(tokens[1], (&Kind::Num, "1"));
    assert_eq!(tokens[2], (&Kind::Add, "+"));
    assert_eq!(tokens[3], (&Kind::Num, "2"));
    assert_eq!(tokens[4], (&Kind::RParen, ")"));
    assert_eq!(tokens[5], (&Kind::Mul, "*"));
    assert_eq!(tokens[6], (&Kind::Num, "3"));
}

#[test]
fn lexer_complex_arithmetic() {
    #[derive(Debug, Clone, PartialEq)]
    enum Kind {
        Num,
        Add,
        Sub,
        Mul,
        Div,
        LParen,
        RParen,
    }

    let mut t = Table::new("0123456789+-*/()".to_string());
    t.add("[0123456789]+", Kind::Num).unwrap();
    t.add("+", Kind::Add).unwrap();
    t.add("-", Kind::Sub).unwrap();
    t.add("*", Kind::Mul).unwrap();
    t.add("/", Kind::Div).unwrap();
    t.add("(", Kind::LParen).unwrap();
    t.add(")", Kind::RParen).unwrap();

    let tokens = collect_tokens(t.lexer("((10+20)*(30-5))/2").unwrap()).unwrap();

    assert_eq!(tokens.len(), 15);
    assert_eq!(tokens[0], (&Kind::LParen, "("));
    assert_eq!(tokens[1], (&Kind::LParen, "("));
    assert_eq!(tokens[2], (&Kind::Num, "10"));
    assert_eq!(tokens[3], (&Kind::Add, "+"));
    assert_eq!(tokens[4], (&Kind::Num, "20"));
    assert_eq!(tokens[5], (&Kind::RParen, ")"));
    assert_eq!(tokens[6], (&Kind::Mul, "*"));
    assert_eq!(tokens[7], (&Kind::LParen, "("));
    assert_eq!(tokens[8], (&Kind::Num, "30"));
    assert_eq!(tokens[9], (&Kind::Sub, "-"));
    assert_eq!(tokens[10], (&Kind::Num, "5"));
    assert_eq!(tokens[11], (&Kind::RParen, ")"));
    assert_eq!(tokens[12], (&Kind::RParen, ")"));
    assert_eq!(tokens[13], (&Kind::Div, "/"));
    assert_eq!(tokens[14], (&Kind::Num, "2"));
}

#[test]
fn lexer_simple_tokens_no_overlap() {
    #[derive(Debug, Clone, PartialEq)]
    enum Kind {
        LBrace,
        RBrace,
        Comma,
        Colon,
        Num,
    }

    let mut t = Table::new("{},:0123456789".to_string());
    t.add("{", Kind::LBrace).unwrap();
    t.add("}", Kind::RBrace).unwrap();
    t.add(",", Kind::Comma).unwrap();
    t.add(":", Kind::Colon).unwrap();
    t.add("[0123456789]+", Kind::Num).unwrap();

    let tokens = collect_tokens(t.lexer("{1:2,3:4}").unwrap()).unwrap();

    assert_eq!(tokens.len(), 9);
    assert_eq!(tokens[0], (&Kind::LBrace, "{"));
    assert_eq!(tokens[1], (&Kind::Num, "1"));
    assert_eq!(tokens[2], (&Kind::Colon, ":"));
    assert_eq!(tokens[3], (&Kind::Num, "2"));
    assert_eq!(tokens[4], (&Kind::Comma, ","));
    assert_eq!(tokens[5], (&Kind::Num, "3"));
    assert_eq!(tokens[6], (&Kind::Colon, ":"));
    assert_eq!(tokens[7], (&Kind::Num, "4"));
    assert_eq!(tokens[8], (&Kind::RBrace, "}"));
}

#[test]
fn lexer_position_tracking() {
    #[derive(Debug, Clone, PartialEq)]
    enum Kind {
        A,
    }

    let mut t = Table::new("a".to_string());
    t.add("a", Kind::A).unwrap();

    // error at position 5
    let mut iter = t.lexer("aaaaa@").unwrap();

    for _ in 0..4 {
        assert!(iter.next().unwrap().is_ok());
    }

    let err = iter.next().unwrap().unwrap_err();
    assert_eq!(err, LexerError::UnknownChar { char: '@', position: 5 });
}
