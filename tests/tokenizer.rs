use nibi::token::{Bracket, BracketRole, BracketType, RawToken, Sep};
use nibi::tokenizer::{tokenize, IngotTokenizer};

#[test]
fn test_raw_tokenize_basic() {
    let mut tokenizer = IngotTokenizer::new("aaa:bbb".chars().collect());
    let (pos, token) = tokenizer.next_raw_token();
    assert_eq!(pos, 0);
    assert_eq!(token, RawToken::SimpleString("aaa".to_string()));
    let (pos, token) = tokenizer.next_raw_token();
    assert_eq!(pos, 3);
    assert_eq!(token, RawToken::Sep(Sep::Colon));
    let (pos, token) = tokenizer.next_raw_token();
    assert_eq!(pos, 4);
    assert_eq!(token, RawToken::SimpleString("bbb".to_string()));
}

#[test]
fn test_raw_tokenize_bracket() {
    let mut tokenizer = IngotTokenizer::new("aaa: {bbb: ccc}".chars().collect());
    let (pos, token) = tokenizer.next_raw_token();
    assert_eq!(pos, 0);
    assert_eq!(token, RawToken::SimpleString("aaa".to_string()));
    let (pos, token) = tokenizer.next_raw_token();
    assert_eq!(pos, 3);
    assert_eq!(token, RawToken::Sep(Sep::Colon));
    let (pos, token) = tokenizer.next_raw_token();
    assert_eq!(pos, 4);
    assert_eq!(token, RawToken::Sep(Sep::WhiteSpaces(" ".to_string())));
    let (pos, token) = tokenizer.next_raw_token();
    assert_eq!(pos, 5);
    assert_eq!(
        token,
        RawToken::Bracket(Bracket::new(BracketRole::Start, BracketType::Curly))
    );
    let (pos, token) = tokenizer.next_raw_token();
    assert_eq!(pos, 6);
    assert_eq!(token, RawToken::SimpleString("bbb".to_string()));
    let (pos, token) = tokenizer.next_raw_token();
    assert_eq!(pos, 9);
    assert_eq!(token, RawToken::Sep(Sep::Colon));
    let (pos, token) = tokenizer.next_raw_token();
    assert_eq!(pos, 10);
    assert_eq!(token, RawToken::Sep(Sep::WhiteSpaces(" ".to_string())));
    let (pos, token) = tokenizer.next_raw_token();
    assert_eq!(pos, 11);
    assert_eq!(token, RawToken::SimpleString("ccc".to_string()));
    let (pos, token) = tokenizer.next_raw_token();
    assert_eq!(pos, 14);
    assert_eq!(
        token,
        RawToken::Bracket(Bracket::new(BracketRole::End, BracketType::Curly))
    );
}

fn rendered(input: &str) -> String {
    tokenize(input.chars().collect())
        .iter()
        .map(|(_, t)| t.get_as_string())
        .collect()
}

#[test]
fn tokens_render_back_to_the_text() {
    let input = "title: \"Hi\" [a, {b}] <c> (d)\n// line\n/* block */ x*y a\\,b ; */ /";
    assert_eq!(rendered(input), input);
}

#[test]
fn carriage_returns_become_plain_newlines() {
    let tokens = tokenize("a\r\nb\rc".chars().collect());
    let kinds: Vec<RawToken> = tokens.into_iter().map(|(_, t)| t).collect();
    assert_eq!(
        kinds,
        vec![
            RawToken::SimpleString("a".to_string()),
            RawToken::Sep(Sep::NewLine),
            RawToken::SimpleString("b".to_string()),
            RawToken::Sep(Sep::NewLine),
            RawToken::SimpleString("c".to_string()),
        ]
    );
    assert_eq!(rendered("a\r\nb"), "a\nb");
}

#[test]
fn comment_marks_and_escapes() {
    let tokens = tokenize("a\\:b x*/ // /* */".chars().collect());
    let kinds: Vec<RawToken> = tokens.into_iter().map(|(_, t)| t).collect();
    assert_eq!(kinds[0], RawToken::SimpleString("a\\:b".to_string()));
    assert_eq!(kinds[2], RawToken::SimpleString("x".to_string()));
    assert_eq!(
        kinds[3],
        RawToken::Comment(nibi::token::CommentMark::BlockEnd)
    );
    assert_eq!(kinds[5], RawToken::Comment(nibi::token::CommentMark::LineBegin));
    assert_eq!(kinds[7], RawToken::Comment(nibi::token::CommentMark::BlockBegin));
    assert_eq!(kinds[9], RawToken::Comment(nibi::token::CommentMark::BlockEnd));
}

#[test]
fn end_of_stream_repeats() {
    let mut tokenizer = IngotTokenizer::new(Vec::new());
    assert_eq!(tokenizer.next_raw_token(), (0, RawToken::Eos));
    assert_eq!(tokenizer.next_raw_token(), (0, RawToken::Eos));
}

#[test]
fn rest_of_buffer_after_cursor() {
    let mut tokenizer = IngotTokenizer::new("ab cd".chars().collect());
    tokenizer.next_raw_token();
    let (pos, rest) = tokenizer.get_rest_all();
    assert_eq!(pos, 2);
    assert_eq!(rest, vec![' ', 'c', 'd']);
    assert_eq!(tokenizer.chars, vec!['a', 'b']);
}
