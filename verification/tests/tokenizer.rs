//! Tokens: quotes, escapes, operators, comments.

use rsh::tokenizer::{
    find_command_subst_end, read_quoted_word, tokenize, RedirectKind, Token, MARK,
};

#[test]
fn test_simple() {
    let tokens = tokenize("ls -la").unwrap();
    assert_eq!(
        tokens,
        vec![Token::Word("ls".into()), Token::Word("-la".into())]
    );
}

#[test]
fn test_quotes() {
    let tokens = tokenize(r#"echo "hola mundo" 'chau mundo'"#).unwrap();
    // Quoted whitespace is marked so it survives field splitting.
    assert_eq!(
        tokens,
        vec![
            Token::Word("echo".into()),
            Token::Word(format!("hola{} mundo", MARK)),
            Token::Word(format!("chau{} mundo", MARK)),
        ]
    );
}

#[test]
fn test_single_quotes_protect_dollar() {
    let tokens = tokenize("echo '$FOO'").unwrap();
    if let Token::Word(w) = &tokens[1] {
        assert!(w.contains(MARK), "expected a MARK before the literal $");
    } else {
        panic!("expected a Word");
    }
}

#[test]
fn test_pipe() {
    let tokens = tokenize("ls | grep foo").unwrap();
    assert_eq!(
        tokens,
        vec![
            Token::Word("ls".into()),
            Token::Pipe,
            Token::Word("grep".into()),
            Token::Word("foo".into()),
        ]
    );
}

#[test]
fn test_redirect() {
    let tokens = tokenize("echo hola > out.txt").unwrap();
    assert_eq!(
        tokens,
        vec![
            Token::Word("echo".into()),
            Token::Word("hola".into()),
            Token::Redirect(RedirectKind::Out, "out.txt".into()),
        ]
    );
}

#[test]
fn test_and_or_seq_background() {
    let tokens = tokenize("make && ./run || echo fail ; sleep 5 &").unwrap();
    assert_eq!(
        tokens,
        vec![
            Token::Word("make".into()),
            Token::And,
            Token::Word("./run".into()),
            Token::Or,
            Token::Word("echo".into()),
            Token::Word("fail".into()),
            Token::Semicolon,
            Token::Word("sleep".into()),
            Token::Word("5".into()),
            Token::Background,
        ]
    );
}

#[test]
fn test_command_subst_with_spaces() {
    let tokens = tokenize("echo $(ls -la /tmp)").unwrap();
    assert_eq!(
        tokens,
        vec![
            Token::Word("echo".into()),
            Token::Word("$(ls -la /tmp)".into())
        ]
    );
}

#[test]
fn test_command_subst_paren_inside_double_quote() {
    // A `)` inside double quotes must not close the $(...) block.
    let tokens = tokenize(r#"echo $(echo "hi) there")"#).unwrap();
    assert_eq!(
        tokens,
        vec![
            Token::Word("echo".into()),
            Token::Word(r#"$(echo "hi) there")"#.into())
        ]
    );
}

#[test]
fn test_command_subst_paren_inside_single_quote() {
    // A `(` inside single quotes must not open a nested level.
    let tokens = tokenize("echo $(echo 'a(b') extra").unwrap();
    assert_eq!(
        tokens,
        vec![
            Token::Word("echo".into()),
            Token::Word("$(echo 'a(b')".into()),
            Token::Word("extra".into())
        ]
    );
}

#[test]
fn test_find_command_subst_end_nested() {
    let chars: Vec<char> = "$(echo $(pwd) here)".chars().collect();
    let end = find_command_subst_end(&chars, 2).unwrap();
    assert_eq!(chars[end], ')');
    let inner: String = chars[2..end].iter().collect();
    assert_eq!(inner, "echo $(pwd) here");
}

#[test]
fn test_backtick_rewritten_as_dollar_paren() {
    let tokens = tokenize("echo `whoami`").unwrap();
    assert_eq!(
        tokens,
        vec![Token::Word("echo".into()), Token::Word("$(whoami)".into())]
    );
}

#[test]
fn test_case_tokens() {
    let tokens = tokenize("case $x in a|b) ;; *) ;; esac").unwrap();
    assert_eq!(
        tokens,
        vec![
            Token::Word("case".into()),
            Token::Word("$x".into()),
            Token::Word("in".into()),
            Token::Word("a".into()),
            Token::Pipe,
            Token::Word("b".into()),
            Token::RParen,
            Token::CaseEnd,
            Token::Word("*".into()),
            Token::RParen,
            Token::CaseEnd,
            Token::Word("esac".into()),
        ]
    );
}

#[test]
fn backslash_makes_the_next_character_literal() {
    let tokens = tokenize(r"a\ b\*\x \\").unwrap();
    assert_eq!(
        tokens,
        vec![
            Token::Word(format!("a{} b{}*x", MARK, MARK)),
            Token::Word("\\".into())
        ]
    );
}

#[test]
fn double_quotes_keep_the_dollar_active() {
    let tokens = tokenize(r#""$A \$B \" \x ~""#).unwrap();
    assert_eq!(
        tokens,
        vec![Token::Word(format!(
            "${m}A{m} {m}$B{m} \"{m} \\x{m} {m}~",
            m = MARK
        ))]
    );
}

#[test]
fn comments_are_dropped() {
    assert_eq!(
        tokenize("echo hi # and more").unwrap(),
        vec![Token::Word("echo".into()), Token::Word("hi".into())]
    );
    assert_eq!(tokenize("# nothing").unwrap(), vec![]);
    assert_eq!(
        tokenize("a # x\nb").unwrap(),
        vec![
            Token::Word("a".into()),
            Token::Semicolon,
            Token::Word("b".into())
        ]
    );
}

#[test]
fn newlines_separate_commands() {
    assert_eq!(
        tokenize("a\nb").unwrap(),
        vec![
            Token::Word("a".into()),
            Token::Semicolon,
            Token::Word("b".into())
        ]
    );
}

#[test]
fn all_redirections() {
    assert_eq!(
        tokenize("c >> a < b 2> c > d << E <<- 'F'").unwrap(),
        vec![
            Token::Word("c".into()),
            Token::Redirect(RedirectKind::Append, "a".into()),
            Token::Redirect(RedirectKind::In, "b".into()),
            Token::Redirect(RedirectKind::ErrOut, "c".into()),
            Token::Redirect(RedirectKind::Out, "d".into()),
            Token::Redirect(RedirectKind::HereDoc, " E".into()),
            Token::Redirect(RedirectKind::HereDocStrip, " 'F'".into()),
        ]
    );
}

#[test]
fn groups_and_parentheses() {
    assert_eq!(
        tokenize("f() { a; }").unwrap(),
        vec![
            Token::Word("f".into()),
            Token::LParen,
            Token::RParen,
            Token::LBrace,
            Token::Word("a".into()),
            Token::Semicolon,
            Token::RBrace,
        ]
    );
}

#[test]
fn malformed_words() {
    assert_eq!(tokenize("'a"), Err("unclosed single quote".to_string()));
    assert_eq!(tokenize("\"a"), Err("unclosed double quote".to_string()));
    assert_eq!(tokenize("`a"), Err("unclosed backtick (`)".to_string()));
    assert_eq!(tokenize("$(a"), Err("unclosed $(...)".to_string()));
    assert_eq!(tokenize("\"$(a"), Err("unclosed double quote".to_string()));
}

#[test]
fn unclosed_substitution_has_no_end() {
    let chars: Vec<char> = "$(a 'b)'".chars().collect();
    assert_eq!(find_command_subst_end(&chars, 2), None);
}

#[test]
fn a_word_is_read_from_where_it_starts() {
    let chars: Vec<char> = "ab'c d'e fg".chars().collect();
    let mut i = 0;
    assert_eq!(
        read_quoted_word(&chars, &mut i),
        Ok(format!("abc{} de", MARK))
    );
    assert_eq!(i, 8);
}

#[test]
fn counts_are_no_comments() {
    assert_eq!(
        tokenize("echo $#$# ${#X} a#b # c").expect("tokens"),
        vec![
            Token::Word("echo".into()),
            Token::Word("$#$#".into()),
            Token::Word("${#X}".into()),
            Token::Word("a".into()),
        ]
    );
    assert_eq!(
        tokenize("\\$#").expect("tokens"),
        vec![Token::Word(format!("{}$", MARK))]
    );
}

#[test]
fn a_quoted_command_is_kept_as_it_is_written() {
    assert_eq!(
        tokenize("\"a $(echo 'b c' \"d e\")\"").expect("tokens"),
        vec![Token::Word(format!(
            "a{m} ${m}(echo 'b c' \"d e\")",
            m = MARK
        ))]
    );
    assert_eq!(
        tokenize("\"\\$(x y) $((1 * 2)) $?\"").expect("tokens"),
        vec![Token::Word(format!(
            "{m}$(x{m} y){m} $((1{m} {m}*{m} 2)){m} ${m}?",
            m = MARK
        ))]
    );
}

#[test]
fn literal_whitespace_of_every_kind_is_marked() {
    let word = format!("a{m}\r{m}\u{a0}{m}{m}b", m = MARK);
    let text = format!("a\r\u{a0}{}b", MARK);
    for quoted in [format!("'{}'", text), format!("\"{}\"", text)] {
        assert_eq!(tokenize(&quoted), Ok(vec![Token::Word(word.clone())]));
    }
}

#[test]
fn an_unclosed_command_in_double_quotes_is_text() {
    assert_eq!(tokenize("\"$(a\""), Ok(vec![Token::Word("$(a".into())]));
    assert_eq!(
        tokenize("echo \"cost $(5\""),
        Ok(vec![
            Token::Word("echo".into()),
            Token::Word(format!("cost{} $(5", MARK))
        ])
    );
}
