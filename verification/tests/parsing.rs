use lispers::parser::{parse_line, parse_lines, ParserToken};

fn sym(s: &str) -> ParserToken {
    ParserToken::Symbol(s.to_string())
}

#[test]
fn splits_on_spaces() {
    let t = parse_line("a b");
    assert_eq!(t, ParserToken::List(vec![sym("a"), sym("b")]));
}

#[test]
fn single_token_still_wrapped_in_list() {
    let t = parse_line("hello");
    assert_eq!(t, ParserToken::List(vec![sym("hello")]));
}

#[test]
fn empty_input_gives_empty_list() {
    let t = parse_line("");
    assert_eq!(t, ParserToken::List(vec![]));
}

#[test]
fn nested_group_parsed_recursively() {
    let t = parse_line("a (b c)");
    assert_eq!(
        t,
        ParserToken::List(vec![
            sym("a"),
            ParserToken::List(vec![sym("b"), sym("c")]),
        ])
    );
}

#[test]
fn deeply_nested_groups() {
    let t = parse_line("(a (b (c)))");
    assert_eq!(
        t,
        ParserToken::List(vec![ParserToken::List(vec![
            sym("a"),
            ParserToken::List(vec![sym("b"), ParserToken::List(vec![sym("c")])]),
        ])])
    );
}

#[test]
fn quoted_text_keeps_spaces_and_quotes() {
    let t = parse_line("'a b' c");
    assert_eq!(t, ParserToken::List(vec![sym("'a b'"), sym("c")]));
}

#[test]
fn unterminated_quote_flushed_at_end() {
    let t = parse_line("'abc");
    assert_eq!(t, ParserToken::List(vec![sym("'abc")]));
}

#[test]
fn unmatched_closing_parens_kept_as_text() {
    // a closing parenthesis at depth zero never fails the parse; it is
    // kept as literal text and surfaces only later, as an opaque symbol
    let t = parse_line("a))");
    assert_eq!(t, ParserToken::List(vec![sym("a))")]));
}

#[test]
fn quote_inside_group_escapes_to_the_top() {
    // the quote flush does not consult the parenthesis depth, so a
    // quoted symbol inside a group lands beside it, not inside it
    let t = parse_line("(a 'b')");
    assert_eq!(
        t,
        ParserToken::List(vec![sym("a 'b'"), ParserToken::List(vec![])])
    );
}

#[test]
fn newlines_and_tabs_dropped() {
    let t = parse_line("a\n\tb");
    assert_eq!(t, ParserToken::List(vec![sym("ab")]));
}

#[test]
fn spaces_inside_groups_preserved_in_group_text() {
    let t = parse_line("(a  b)");
    assert_eq!(
        t,
        ParserToken::List(vec![ParserToken::List(vec![sym("a"), sym("b")])])
    );
}

#[test]
fn parse_lines_splits_on_semicolons() {
    let ts = parse_lines("a;b c");
    assert_eq!(ts.len(), 2);
    assert_eq!(ts[0], ParserToken::List(vec![sym("a")]));
    assert_eq!(ts[1], ParserToken::List(vec![sym("b"), sym("c")]));
}

#[test]
fn parse_lines_of_empty_text_is_one_empty_statement() {
    let ts = parse_lines("");
    assert_eq!(ts.len(), 1);
    assert_eq!(ts[0], ParserToken::List(vec![]));
}

#[test]
fn parse_lines_keeps_empty_segments() {
    let ts = parse_lines("a;;b");
    assert_eq!(ts.len(), 3);
    assert_eq!(ts[1], ParserToken::List(vec![]));
}

#[test]
fn render_inverts_parsing() {
    let src = "a (b (c d)) 'quoted text' e";
    let tree = parse_line(src);
    let rendered = tree.render();
    assert_eq!(rendered, src);
    assert_eq!(parse_line(&rendered), tree);
}

#[test]
fn render_inverts_parsing_of_mixed_quote_symbols() {
    // a symbol may end in a quoted stretch, as in a'x y': the closing
    // quote flushes it whole
    let src = "a'x y' b";
    let tree = parse_line(src);
    assert_eq!(
        tree,
        ParserToken::List(vec![sym("a'x y'"), sym("b")])
    );
    assert_eq!(tree.render(), src);
    assert_eq!(parse_line(&tree.render()), tree);
}

#[test]
fn render_normalizes_extra_spaces() {
    let tree = parse_line("a   b");
    assert_eq!(tree.render(), "a b");
    assert_eq!(parse_line(&tree.render()), tree);
}

#[test]
fn pretty_form_of_a_raw_tree() {
    let tree = parse_line("a (b)");
    assert_eq!(
        tree.pretty_string(""),
        ".<---\n..|- a\n...<---\n....|- b\n...--->\n.--->\n"
    );
}
