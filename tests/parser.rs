use nibi::parser::IngotMatterTokenParser;
use nibi::token::{BlockToken, Pos, Quote, RawToken, RawTokenData, TokenNode};
use nibi::tokenizer::IngotTokenizer;

fn tokenize_all(input: &str) -> Vec<RawTokenData> {
    let mut tokenizer = IngotTokenizer::new(input.chars().collect());
    let mut tokens: Vec<RawTokenData> = Vec::new();
    loop {
        let next_token = tokenizer.next_raw_token();
        match next_token.1 {
            RawToken::Eos => break,
            _ => tokens.push(next_token),
        }
    }
    tokens
}

#[test]
fn test_token_nodes() {
    let tokens = tokenize_all("aaa:bbb ccc, ddd:eee");

    let mut parser = IngotMatterTokenParser::new(tokens);
    let node = parser.next_token_node().unwrap();
    assert_eq!(
        node,
        TokenNode {
            pos: Pos { start: 0 },
            token: BlockToken::KeyValue(
                "aaa".to_string(),
                Box::new(Some(TokenNode {
                    pos: Pos { start: 4 },
                    token: BlockToken::UnquotedString("bbb ccc".to_string()),
                }))
            )
        }
    );
    let node = parser.next_token_node().unwrap();
    assert_eq!(
        node,
        TokenNode {
            pos: Pos { start: 13 },
            token: BlockToken::KeyValue(
                "ddd".to_string(),
                Box::new(Some(TokenNode {
                    pos: Pos { start: 17 },
                    token: BlockToken::UnquotedString("eee".to_string()),
                }))
            )
        }
    );
}

fn all_nodes(input: &str) -> Vec<TokenNode> {
    let mut parser = IngotMatterTokenParser::new(tokenize_all(input));
    let mut nodes = Vec::new();
    while let Some(n) = parser.next_token_node() {
        nodes.push(n);
    }
    nodes
}

fn kv(node: &TokenNode) -> (&str, &BlockToken) {
    match &node.token {
        BlockToken::KeyValue(k, v) => (k.as_str(), &v.as_ref().as_ref().unwrap().token),
        other => panic!("not a key/value node: {:?}", other),
    }
}

#[test]
fn plain_key_value_line() {
    let nodes = all_nodes("title: Hello World");
    assert_eq!(nodes.len(), 1);
    let (k, v) = kv(&nodes[0]);
    assert_eq!(k, "title");
    assert_eq!(v, &BlockToken::UnquotedString("Hello World".to_string()));
}

#[test]
fn leading_blanks_before_the_key_are_skipped() {
    let nodes = all_nodes("  \ttitle:  Hello World");
    assert_eq!(nodes.len(), 1);
    assert_eq!(nodes[0].pos, Pos { start: 3 });
    let (k, v) = kv(&nodes[0]);
    assert_eq!(k, "title");
    assert_eq!(v, &BlockToken::UnquotedString("Hello World".to_string()));
}

#[test]
fn quoted_key_value() {
    let nodes = all_nodes("\"key\": \"value\"");
    assert_eq!(nodes.len(), 1);
    let (k, v) = kv(&nodes[0]);
    assert_eq!(k, "key");
    assert_eq!(v, &BlockToken::QuotedString(Quote::Double, "value".to_string()));
}

#[test]
fn array_closes_on_any_bracket() {
    let nodes = all_nodes("[a, b}");
    assert_eq!(nodes.len(), 1);
    match &nodes[0].token {
        BlockToken::Array(items) => {
            let texts: Vec<&str> = items.iter().map(|n| n.get_string_value().unwrap()).collect();
            assert_eq!(texts, vec!["a", "b"]);
        }
        other => panic!("not an array: {:?}", other),
    }
}

#[test]
fn nested_arrays_and_stray_close() {
    let nodes = all_nodes("] k: [x, [y], 'z']");
    assert_eq!(nodes.len(), 1);
    let (k, v) = kv(&nodes[0]);
    assert_eq!(k, "k");
    match v {
        BlockToken::Array(items) => {
            assert_eq!(items.len(), 3);
            assert!(matches!(&items[1].token, BlockToken::Array(inner) if inner.len() == 1));
            assert_eq!(
                items[2].token,
                BlockToken::QuotedString(Quote::Single, "z".to_string())
            );
        }
        other => panic!("not an array: {:?}", other),
    }
}

#[test]
fn comments_are_nodes_and_skipped_before_values() {
    let nodes = all_nodes("// note\nk: // c\nv");
    assert_eq!(nodes[0].token, BlockToken::Comment(" note".to_string()));
    let (k, v) = kv(&nodes[1]);
    assert_eq!(k, "k");
    assert_eq!(v, &BlockToken::UnquotedString("v".to_string()));
    let nodes = all_nodes("k: /* c */ v");
    let (_, v) = kv(&nodes[0]);
    assert_eq!(v, &BlockToken::UnquotedString("*/ v".to_string()));
}

#[test]
fn value_keeps_inner_colon() {
    let nodes = all_nodes("url: a:b");
    let (_, v) = kv(&nodes[0]);
    assert_eq!(v, &BlockToken::UnquotedString("a:b".to_string()));
}

#[test]
fn string_value_of_scalars_only() {
    assert_eq!(BlockToken::UnquotedString("x".to_string()).get_string_value(), Some("x"));
    assert_eq!(BlockToken::Comment("x".to_string()).get_string_value(), None);
    assert_eq!(BlockToken::Array(Vec::new()).get_string_value_or_empty(), "");
}

#[test]
fn cursor_moves_on_past_the_end() {
    let mut parser = IngotMatterTokenParser::new(tokenize_all("a"));
    assert!(parser.next_token().is_some());
    assert_eq!(parser.pos, 1);
    assert!(parser.next_token().is_none());
    assert_eq!(parser.pos, 2);
    assert!(parser.next_token_node().is_none());
    assert_eq!(parser.pos, 3);
}
