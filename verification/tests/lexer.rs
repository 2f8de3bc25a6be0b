use tosh::lexer::Token;

#[test]
fn lex_paren_test() {
    let mut lex = Token::lexer("Hello $(HELLO)");
    assert_eq!(lex.next(), Some(Token::Text));

    assert_eq!(lex.next(), Some(Token::Dollar));
    assert_eq!(lex.next(), Some(Token::ParensOpen));
    assert_eq!(lex.next(), Some(Token::Text));
    assert_eq!(lex.next(), Some(Token::ParensClose));
}

#[test]
fn lex_pipe_test() {
    let mut lex = Token::lexer("echo yes | apt install test");
    assert_eq!(lex.next(), Some(Token::Text));
    assert_eq!(lex.next(), Some(Token::Text));
    assert_eq!(lex.next(), Some(Token::Pipe));
}

#[test]
fn lex_output_test_permissions() {
    let mut lex = Token::lexer("drwxr-xr-x");
    assert_eq!(lex.next(), Some(Token::Permissions));
}

#[test]
fn lex_filename_test() {
    let mut lex = Token::lexer("hello.txt");
    assert_eq!(lex.next(), Some(Token::Text));
}

#[test]
fn lex_ls_test() {
    let prelex = "drwxr-xr-x 2 moheeb moheeb_users    4 Mar 17 15:38 .\ndrwxr-xr-x 3 moheeb moheeb_users    4 Mar 17 14:49 ..\n-rw-r--r-- 1 moheeb moheeb_users  201 Mar 17 14:49 jsonify.rs\n-rw-r--r-- 1 moheeb moheeb_users 1383 Mar 17 15:25 lexer.rs\n-rw-r--r-- 1 moheeb moheeb_users  907 Mar 17 13:55 lib.rs\n-rw-r--r-- 1 moheeb moheeb_users 3041 Mar  9 09:15 trie.rs";
    for lines in prelex.lines() {
        let mut lex = Token::lexer(lines);
        assert_eq!(lex.next(), Some(Token::Permissions));
    }
}

fn all_tokens(source: &str) -> Vec<Token> {
    let mut lex = Token::lexer(source);
    let mut out = Vec::new();
    while let Some(t) = lex.next() {
        out.push(t);
    }
    out
}

#[test]
fn lex_pipeline_tokens() {
    assert_eq!(
        all_tokens("a | b"),
        vec![Token::Text, Token::Pipe, Token::Text]
    );
    assert_eq!(
        all_tokens("$(ls)"),
        vec![Token::Dollar, Token::ParensOpen, Token::Text, Token::ParensClose]
    );
}

#[test]
fn lex_partial_permissions_fall_back_to_text() {
    assert_eq!(all_tokens("drwxr-"), vec![Token::Text, Token::Error]);
}

#[test]
fn lex_permissions_win_ties_and_longer_text_wins() {
    assert_eq!(all_tokens("rwxrwxrwxr"), vec![Token::Permissions]);
    assert_eq!(all_tokens("rwxrwxrwxrw"), vec![Token::Text]);
    assert_eq!(
        all_tokens("drwxr-xr-xabc"),
        vec![Token::Permissions, Token::Text]
    );
}

#[test]
fn lex_unknown_characters_are_errors() {
    assert_eq!(all_tokens("12"), vec![Token::Error, Token::Error]);
    assert_eq!(all_tokens("\r"), vec![Token::Error]);
    assert_eq!(all_tokens("é"), vec![Token::Error]);
}

#[test]
fn lex_skips_separators() {
    assert_eq!(all_tokens(" \t\n\u{c}"), Vec::<Token>::new());
    assert_eq!(all_tokens(""), Vec::<Token>::new());
    let mut lex = Token::lexer("  x  ");
    assert_eq!(lex.next(), Some(Token::Text));
    assert_eq!(lex.next(), None);
    assert_eq!(lex.next(), None);
}
