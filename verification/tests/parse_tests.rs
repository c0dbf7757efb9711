use vim_flavor::Flavor;
use vim_flavor::ParseError;
use vim_flavor::Parser;
use vim_flavor::Token;

#[test]
fn test_skip_to_next_line() {
    let mut p = Parser::new("aaa\nbbb");
    p.skip_to_next_line();
    assert_eq!(p.offset, 4);

    p.skip_to_next_line();
    assert_eq!(p.offset, 7);

    p.skip_to_next_line();
    assert_eq!(p.offset, 7);
}

#[test]
fn test_next() {
    let mut p = Parser::new(" ab");
    assert_eq!(p.byte(), Some(b' '));
    assert_eq!(p.offset, 0);

    p.next();
    assert_eq!(p.byte(), Some(b'a'));
    assert_eq!(p.offset, 1);

    p.next();
    assert_eq!(p.byte(), Some(b'b'));
    assert_eq!(p.offset, 2);

    p.next();
    assert_eq!(p.byte(), None);
    assert_eq!(p.offset, 3);
}

#[test]
fn test_next_token() {
    let mut p = Parser::new("## @ #");
    assert_eq!(p.next_token(), Ok(Token::Hash));
    assert_eq!(p.offset, 1);

    assert_eq!(p.next_token(), Ok(Token::Hash));
    assert_eq!(p.offset, 2);

    assert_eq!(p.next_token(), Ok(Token::Illegal));
    assert_eq!(p.offset, 4);

    assert_eq!(p.next_token(), Ok(Token::Hash));
    assert_eq!(p.offset, 6);

    assert_eq!(p.next_token().err(), Some(ParseError::EOF));
    assert_eq!(p.offset, 6);

    let mut p = Parser::new("abc#de f");
    assert_eq!(p.next_token(), Ok(Token::Ident(String::from("abc"))));
    assert_eq!(p.offset, 3);

    assert_eq!(p.next_token(), Ok(Token::Hash));
    assert_eq!(p.offset, 4);

    assert_eq!(p.next_token(), Ok(Token::Ident(String::from("de"))));
    assert_eq!(p.offset, 6);

    assert_eq!(p.next_token(), Ok(Token::Ident(String::from("f"))));
    assert_eq!(p.offset, 8);

    assert_eq!(p.next_token().err(), Some(ParseError::EOF));
    assert_eq!(p.offset, 8);

    let mut p = Parser::new("#'aaa',:group");
    assert_eq!(p.next_token(), Ok(Token::Hash));
    assert_eq!(p.offset, 1);

    assert_eq!(p.next_token(), Ok(Token::Str(String::from("aaa"))));
    assert_eq!(p.offset, 6);

    assert_eq!(p.next_token(), Ok(Token::Comma));
    assert_eq!(p.offset, 7);

    assert_eq!(p.next_token(), Ok(Token::Colon));
    assert_eq!(p.offset, 8);

    assert_eq!(p.next_token(), Ok(Token::Group));
    assert_eq!(p.offset, 13);

    let mut p = Parser::new("branch");
    assert_eq!(p.next_token(), Ok(Token::Branch));
}

#[test]
fn test_parse() {
    let s = "# comment of flavor file\n\
             flavor 'repo'";
    let mut p = Parser::new(s);
    assert_eq!(
        p.parse(),
        Ok(vec![Flavor {
            repo: "repo".to_owned(),
            branch: "master".to_owned(),
        }])
    );
    assert_eq!(p.offset, s.len());

    let s = "flavor flavor";
    let mut p = Parser::new(s);
    assert!(p.parse().is_err());

    let s = "flavor 'repo', branch: 'master'";
    let mut p = Parser::new(s);
    assert_eq!(
        p.parse(),
        Ok(vec![Flavor {
            repo: "repo".to_owned(),
            branch: "master".to_owned(),
        }])
    );

    let s = "flavor 'repo', branch 'missing a colon'";
    let mut p = Parser::new(s);
    assert!(p.parse().is_err());

    let s = "flavor 'repo' branch: 'missing a comma'";
    let mut p = Parser::new(s);
    assert!(p.parse().is_err());

    let s = ", branch";
    let mut p = Parser::new(s);
    assert!(p.parse().is_err());
}

#[test]
fn test_is_eof_error() {
    assert!(ParseError::EOF.is_eof_error());
    assert!(!ParseError::Terminate.is_eof_error());
}

#[test]
fn test_parse_keeps_textual_order() {
    let s = "flavor 'a'\nflavor 'b'\nflavor 'c'";
    let mut p = Parser::new(s);
    let entries = p.parse().unwrap();
    assert_eq!(entries.len(), 3);
    assert_eq!(entries[0].repo, "a");
    assert_eq!(entries[1].repo, "b");
    assert_eq!(entries[2].repo, "c");
}

#[test]
fn test_parse_default_branch_is_master() {
    let mut p = Parser::new("flavor 'repo'");
    let entries = p.parse().unwrap();
    assert_eq!(entries.len(), 1);
    assert_eq!(entries[0].branch, "master");
}

#[test]
fn test_parse_attribute_sets_branch() {
    let mut p = Parser::new("flavor 'repo', branch: 'dev'");
    let entries = p.parse().unwrap();
    assert_eq!(entries.len(), 1);
    assert_eq!(entries[0].branch, "dev");
}

#[test]
fn test_parse_attribute_overwrites_branch() {
    // A second attribute clause overwrites the branch; it does not append
    // another entry.
    let mut p = Parser::new("flavor 'repo', branch: 'a', branch: 'b'");
    let entries = p.parse().unwrap();
    assert_eq!(entries.len(), 1);
    assert_eq!(entries[0].branch, "b");

    // A later identical repo makes a second entry with its own branch.
    let mut p = Parser::new("flavor 'repo', branch: 'x'\nflavor 'repo', branch: 'y'");
    let entries = p.parse().unwrap();
    assert_eq!(entries.len(), 2);
    assert_eq!(entries[0].repo, "repo");
    assert_eq!(entries[0].branch, "x");
    assert_eq!(entries[1].repo, "repo");
    assert_eq!(entries[1].branch, "y");
}

#[test]
fn test_parse_comment_is_ignored() {
    let mut with_comment = Parser::new("# note\nflavor 'a/b'");
    let mut without = Parser::new("flavor 'a/b'");
    let expected = vec![Flavor {
        repo: "a/b".to_owned(),
        branch: "master".to_owned(),
    }];
    assert_eq!(with_comment.parse(), Ok(expected.clone()));
    assert_eq!(without.parse(), Ok(expected));
    // The offset after parsing counts exactly the bytes of each input.
    assert_eq!(with_comment.offset, "# note\nflavor 'a/b'".len());
    assert_eq!(without.offset, "flavor 'a/b'".len());
}

#[test]
fn test_parse_scenarios() {
    let mut p = Parser::new("flavor 'vspec'");
    assert_eq!(
        p.parse(),
        Ok(vec![Flavor {
            repo: "vspec".to_owned(),
            branch: "master".to_owned(),
        }])
    );

    let mut p = Parser::new("flavor 'a/b', branch: 'v2'");
    assert_eq!(
        p.parse(),
        Ok(vec![Flavor {
            repo: "a/b".to_owned(),
            branch: "v2".to_owned(),
        }])
    );
}

#[test]
fn test_parse_keyword_for_string_is_type_mismatch() {
    let mut p = Parser::new("flavor flavor");
    assert_eq!(p.parse(), Err(ParseError::TypeMismatch));
}

#[test]
fn test_parse_end_at_statement_boundary_succeeds() {
    // A complete statement followed by nothing is a clean end.
    let mut p = Parser::new("flavor 'repo'");
    let entries = p.parse().unwrap();
    assert_eq!(entries.len(), 1);

    // The empty manifest is a clean end with no entries.
    let mut p = Parser::new("");
    assert_eq!(p.parse(), Ok(vec![]));

    // Ending right after `flavor`, with the string still required, fails.
    let mut p = Parser::new("flavor");
    assert_eq!(p.parse(), Err(ParseError::EOF));

    // Ending inside an attribute clause fails too.
    let mut p = Parser::new("flavor 'repo', branch:");
    assert_eq!(p.parse(), Err(ParseError::EOF));
}

#[test]
fn test_parse_unterminated_literal() {
    let mut p = Parser::new("flavor 'oops");
    assert_eq!(p.parse(), Err(ParseError::Terminate));
}

#[test]
fn test_parse_unexpected_token_errors() {
    // A comma with no preceding entry: the comma was unexpected where a
    // flavor statement was required.
    let mut p = Parser::new(", branch");
    assert_eq!(
        p.parse(),
        Err(ParseError::Unexpected(Token::Comma, Token::Flavor))
    );

    // A missing comma: the `branch` keyword stands where a statement may
    // start.
    let mut p = Parser::new("flavor 'repo' branch: 'x'");
    assert_eq!(
        p.parse(),
        Err(ParseError::Unexpected(Token::Branch, Token::Flavor))
    );

    // A missing colon: the string literal stands where the colon was
    // required.
    let mut p = Parser::new("flavor 'repo', branch 'x'");
    assert_eq!(
        p.parse(),
        Err(ParseError::Unexpected(
            Token::Str(String::from("x")),
            Token::Colon
        ))
    );
}

#[test]
fn test_parse_non_ascii_literal() {
    let mut p = Parser::new("flavor 'caf\u{e9}/plugin'");
    let entries = p.parse().unwrap();
    assert_eq!(entries.len(), 1);
    assert_eq!(entries[0].repo, "caf\u{e9}/plugin");
}
