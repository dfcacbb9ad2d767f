use stencil::tokenizer::{Error, Token, TokenizerIter};

#[test]
fn empty_text() {
    let mut iter = TokenizerIter::new("");

    assert_eq!(None, iter.next());
}

#[test]
fn normal_text() {
    let mut iter = TokenizerIter::new("some text");

    assert_eq!(Some(Ok(Token::Text("some text"))), iter.next());
    assert_eq!(None, iter.next());
}

#[test]
fn variable() {
    let mut iter = TokenizerIter::new("$variable");

    assert_eq!(Some(Ok(Token::Variable("variable"))), iter.next());
    assert_eq!(None, iter.next());
}

#[test]
fn variable_with_inline() {
    let mut iter = TokenizerIter::new("123 $variable 456");

    assert_eq!(Some(Ok(Token::Text("123 "))), iter.next());
    assert_eq!(Some(Ok(Token::Variable("variable"))), iter.next());
    assert_eq!(Some(Ok(Token::Text(" 456"))), iter.next());
    assert_eq!(None, iter.next());
}

#[test]
fn variable_with_newline() {
    let mut iter = TokenizerIter::new("\n$variable\n");

    assert_eq!(Some(Ok(Token::Text("\n"))), iter.next());
    assert_eq!(Some(Ok(Token::Variable("variable"))), iter.next());
    assert_eq!(Some(Ok(Token::Text("\n"))), iter.next());
    assert_eq!(None, iter.next());
}

#[test]
fn variable_multi() {
    let mut iter = TokenizerIter::new("$variable1 $variable2$variable3");

    assert_eq!(Some(Ok(Token::Variable("variable1"))), iter.next());
    assert_eq!(Some(Ok(Token::Text(" "))), iter.next());
    assert_eq!(Some(Ok(Token::Variable("variable2"))), iter.next());
    assert_eq!(Some(Ok(Token::Variable("variable3"))), iter.next());
    assert_eq!(None, iter.next());
}

#[test]
fn if_one_liner() {
    let mut iter = TokenizerIter::new("$if variable: $variable");

    assert_eq!(
        Some(Ok(Token::If {
            not: false,
            variable: "variable",
            true_block: "$variable",
            false_block: "",
        })),
        iter.next()
    );
}

#[test]
fn if_not() {
    let mut iter = TokenizerIter::new("$if !variable: $variable");

    assert_eq!(
        Some(Ok(Token::If {
            not: true,
            variable: "variable",
            true_block: "$variable",
            false_block: "",
        })),
        iter.next()
    );
}

#[test]
fn if_nested() {
    let mut iter = TokenizerIter::new("$if variable.a: $if variable.b: $variable.b");

    assert_eq!(
        Some(Ok(Token::If {
            not: false,
            variable: "variable.a",
            true_block: "$if variable.b: $variable.b",
            false_block: "",
        })),
        iter.next()
    );
}

// The outer block ends at its own `$end`, the second one: the first closes
// the inner block and stays in the outer body.
#[test]
fn if_multiline() {
    let mut iter = TokenizerIter::new("$if variable.a: \n$if variable.b: \n$variable.b\n$end\n$end");

    assert_eq!(
        Some(Ok(Token::If {
            not: false,
            variable: "variable.a",
            true_block: "$if variable.b: \n$variable.b\n$end\n",
            false_block: "",
        })),
        iter.next()
    );
    assert_eq!(None, iter.next());
}

#[test]
fn for_one_liner() {
    let mut iter = TokenizerIter::new("$for x in items: $x ");

    assert_eq!(
        Some(Ok(Token::For {
            name: "x",
            variable: "items",
            block: "$x ",
        })),
        iter.next()
    );
    assert_eq!(None, iter.next());
}

#[test]
fn for_multiline_then_text() {
    let mut iter = TokenizerIter::new("$for x in a.list:\n- $x\n$end\nafter");

    assert_eq!(
        Some(Ok(Token::For {
            name: "x",
            variable: "a.list",
            block: "- $x\n",
        })),
        iter.next()
    );
    assert_eq!(Some(Ok(Token::Text("after"))), iter.next());
    assert_eq!(None, iter.next());
}

#[test]
fn one_liner_closed_inline() {
    let mut iter = TokenizerIter::new("$if a: yes $end rest");

    assert_eq!(
        Some(Ok(Token::If {
            not: false,
            variable: "a",
            true_block: "yes",
            false_block: "",
        })),
        iter.next()
    );
    assert_eq!(Some(Ok(Token::Text(" rest"))), iter.next());
    assert_eq!(None, iter.next());
}

#[test]
fn one_liner_keeps_newline_after_it() {
    let mut iter = TokenizerIter::new("$if a: yes\nnext");

    assert_eq!(
        Some(Ok(Token::If {
            not: false,
            variable: "a",
            true_block: "yes",
            false_block: "",
        })),
        iter.next()
    );
    assert_eq!(Some(Ok(Token::Text("\nnext"))), iter.next());
    assert_eq!(None, iter.next());
}

#[test]
fn if_without_colon() {
    let mut iter = TokenizerIter::new("ab $if flag yes");

    assert_eq!(Some(Ok(Token::Text("ab "))), iter.next());
    assert_eq!(Some(Err(Error::InvalidIfBlock { offset: 3 })), iter.next());
    assert_eq!(None, iter.next());
}

#[test]
fn for_without_in() {
    let mut iter = TokenizerIter::new("$for x of items: $x");

    assert_eq!(Some(Err(Error::InvalidForBlock { offset: 0 })), iter.next());
    assert_eq!(None, iter.next());
}

#[test]
fn for_without_colon() {
    let mut iter = TokenizerIter::new("$for x in items\n$x");

    assert_eq!(Some(Err(Error::InvalidForBlock { offset: 0 })), iter.next());
}

#[test]
fn block_without_end() {
    let mut iter = TokenizerIter::new("x\n$if flag:\nbody");

    assert_eq!(Some(Ok(Token::Text("x\n"))), iter.next());
    assert_eq!(Some(Err(Error::NoEnd { offset: 2 })), iter.next());
    assert_eq!(None, iter.next());
}

#[test]
fn header_at_end_of_text_has_no_end() {
    let mut iter = TokenizerIter::new("$if flag:");

    assert_eq!(Some(Err(Error::NoEnd { offset: 0 })), iter.next());
}

#[test]
fn error_offset_counts_bytes() {
    let mut iter = TokenizerIter::new("é $if x");

    assert_eq!(Some(Ok(Token::Text("é "))), iter.next());
    assert_eq!(Some(Err(Error::InvalidIfBlock { offset: 3 })), iter.next());
}

#[test]
fn dollar_alone_is_an_empty_variable() {
    let mut iter = TokenizerIter::new("a$ b");

    assert_eq!(Some(Ok(Token::Text("a"))), iter.next());
    assert_eq!(Some(Ok(Token::Variable(""))), iter.next());
    assert_eq!(Some(Ok(Token::Text(" b"))), iter.next());
    assert_eq!(None, iter.next());
}

#[test]
fn blank_rest_of_line_is_a_one_line_body() {
    let mut iter = TokenizerIter::new("$if flag:   ");

    assert_eq!(
        Some(Ok(Token::If {
            not: false,
            variable: "flag",
            true_block: "  ",
            false_block: "",
        })),
        iter.next()
    );
    assert_eq!(None, iter.next());
}

#[test]
fn block_ends_at_its_own_end_three_deep() {
    let mut iter = TokenizerIter::new("$if a:\n$for x in xs:\n$if b:\n$x\n$end\n$end\n$end\ntail");

    assert_eq!(
        Some(Ok(Token::If {
            not: false,
            variable: "a",
            true_block: "$for x in xs:\n$if b:\n$x\n$end\n$end\n",
            false_block: "",
        })),
        iter.next()
    );
    assert_eq!(Some(Ok(Token::Text("tail"))), iter.next());
    assert_eq!(None, iter.next());
}
