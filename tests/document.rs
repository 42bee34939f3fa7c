use nibi::document::IngotParser;
use nibi::index::{IndexEntry, Tag};
use nibi::ingot::{
    Ingot, ParseError, RKeyList, RKeyRaw, Status, Timestamp, To,
};
use nibi::token::{BlockToken, TokenNode};

fn parse(text: &str) -> Ingot {
    IngotParser::parse_text(text)
}

#[test]
fn scalar_tag_text_splits_at_commas() {
    let list = RKeyList::from_text("1, two, \"3\"");
    assert_eq!(
        list,
        RKeyList::Raw(vec![
            RKeyRaw::Usize(1),
            RKeyRaw::String("two".to_string()),
            RKeyRaw::Usize(3)
        ])
    );
}

#[test]
fn tags_from_array_and_scalar_in_matter() {
    let doc = parse("tags: [1, two, \"3\"]\ncategories: \"news, 7\"\n\nbody");
    assert_eq!(
        doc.tags,
        RKeyList::Raw(vec![
            RKeyRaw::Usize(1),
            RKeyRaw::String("two".to_string()),
            RKeyRaw::Usize(3)
        ])
    );
    assert_eq!(
        doc.categories,
        RKeyList::Raw(vec![RKeyRaw::String("news".to_string()), RKeyRaw::Usize(7)])
    );
}

#[test]
fn back_matter_wins_over_front_matter() {
    let doc = parse("status: draft\n\nTitle\n\nBody text\n\nstatus: publish\n");
    assert_eq!(doc.status, Status::Publish);
    assert_eq!(doc.title, "Title");
    assert_eq!(doc.content, "Body text");
    let doc = parse("status: draft\n\nBody\n\nstatus: publish");
    assert_eq!(doc.status, Status::Publish);
    assert_eq!(doc.title, "Body");
    assert_eq!(doc.content, "");
}

#[test]
fn back_matter_starts_at_the_last_blank_line() {
    let (body, back) = IngotParser::split_back_matter("a\n\n\nx\n\ny".chars().collect());
    assert_eq!(body.iter().collect::<String>(), "a\n\n\nx");
    assert_eq!(back.iter().collect::<String>(), "\n\ny");
    let (body, back) = IngotParser::split_back_matter("a\r\n\r\nb".chars().collect());
    assert_eq!(body.iter().collect::<String>(), "a");
    assert_eq!(back.iter().collect::<String>(), "\r\n\r\nb");
    let (body, back) = IngotParser::split_back_matter(Vec::new());
    assert!(body.is_empty() && back.is_empty());
}

#[test]
fn blank_line_ends_front_matter() {
    let doc = parse("title: A\n\nBody line one\nBody line two");
    assert_eq!(doc.content, "Body line one\nBody line two");
    assert_eq!(doc.title, "");
    let (body, back) = IngotParser::split_back_matter("Body line one\nBody line two".chars().collect());
    assert_eq!(body.iter().collect::<String>(), "Body line one\nBody line two");
    assert!(back.is_empty());
}

#[test]
fn title_then_blank_line_then_body() {
    let doc = parse("id: 42\nauthor: 7\npname: hello-world\n\n\n  \nMy Title\n\nFirst\nSecond");
    assert_eq!(doc.id, 42);
    assert_eq!(doc.author, 7);
    assert_eq!(doc.pname, "hello-world");
    assert_eq!(doc.title, "My Title");
    assert_eq!(doc.content, "");
    let doc = parse("id: 1\n\n\n  \nMy Title\n  \nFirst\nSecond\n\nstatus: publish");
    assert_eq!(doc.title, "My Title");
    assert_eq!(doc.content, "First\nSecond");
    assert_eq!(doc.status, Status::Publish);
}

#[test]
fn empty_document_gives_zero_record() {
    let doc = parse("");
    assert_eq!(doc.id, 0);
    assert_eq!(doc.title, "");
    assert_eq!(doc.content, "");
    assert_eq!(doc.status, Status::Draft);
    assert_eq!(doc.to, To::Post);
    assert_eq!(doc.tags, RKeyList::Raw(Vec::new()));
}

#[test]
fn keys_match_in_any_case_and_bad_values_are_ignored() {
    let doc = parse("STATUS: Private\nType: Gallery\nid: x12\nStatus: nonsense\n\nbody");
    assert_eq!(doc.status, Status::Private);
    assert_eq!(doc.to, To::Custom("gallery".to_string()));
    assert_eq!(doc.id, 0);
}

#[test]
fn timestamps_parse_with_offset() {
    let doc = parse("published: 2024-01-02T03:04:05Z\nupdated: not a date\n\nx");
    assert_eq!(doc.published, Timestamp { second: 1704164645, nanosecond: 0 });
    assert_eq!(doc.updated, Timestamp { second: 0, nanosecond: 0 });
}

#[test]
fn render_targets() {
    assert_eq!(To::from_text("ASIS"), To::AsIs);
    assert_eq!(To::from_text("page"), To::Page);
    assert!(Status::from_text("Draft").is_ok());
    assert!(matches!(Status::from_text("other"), Err(ParseError::Invalid)));
}

#[test]
fn missing_value_changes_nothing() {
    let mut doc = Ingot::new(5);
    IngotParser::set_from_key_value(&mut doc, "id".to_string(), None);
    assert_eq!(doc.id, 5);
    let value = TokenNode::new(0, BlockToken::UnquotedString(" 9 ".to_string()));
    IngotParser::set_from_key_value(&mut doc, "ID".to_string(), Some(value));
    assert_eq!(doc.id, 9);
}

#[test]
fn read_failure_gives_io_error() {
    let failed: Result<String, std::io::Error> = Err(std::io::Error::other("unreadable"));
    match IngotParser::from_read(failed) {
        Err(ParseError::IO(e)) => assert_eq!(e.to_string(), "unreadable"),
        other => panic!("expected an I/O error, got {:?}", other.map(|i| i.id)),
    }
    let ok = IngotParser::from_read(Ok("id: 3\n\nhi".to_string())).unwrap();
    assert_eq!(ok.id, 3);
}

fn index() -> Vec<IndexEntry> {
    vec![
        Tag::new(1, "rust".to_string(), "Rust".to_string(), String::new()).index_entry(),
        Tag::new(4, "web".to_string(), "Web".to_string(), String::new()).index_entry(),
    ]
}

#[test]
fn resolution_is_idempotent() {
    let raw = RKeyList::from_text("web, 1, Rust, unknown, 99");
    let collated = raw.collate(&index());
    assert_eq!(collated, RKeyList::CollatedId(vec![4, 1, 1]));
    let again = collated.to_raw().collate(&index());
    assert_eq!(again, collated);
}

#[test]
fn document_ids_are_collated() {
    let mut doc = parse("tags: \"rust, web\"\ncategories: 4\n\nx");
    doc.collate_ids(&index(), &index());
    assert_eq!(doc.tags, RKeyList::CollatedId(vec![1, 4]));
    assert_eq!(doc.categories, RKeyList::CollatedId(vec![4]));
}

#[test]
fn tag_index_keeps_the_later_duplicate() {
    let tags = vec![
        Tag::new(3, "a".to_string(), "A".to_string(), String::new()),
        Tag::new(1, "b".to_string(), "B".to_string(), String::new()),
        Tag::new(3, "c".to_string(), "C".to_string(), String::new()),
    ];
    let map = nibi::index::get_index_map_from_tags(&tags);
    assert_eq!(map.keys().copied().collect::<Vec<usize>>(), vec![1, 3]);
    assert_eq!(map[&3].path_name, "c");
    assert_eq!(map[&1].name, "B");
}

#[test]
fn status_and_comment_status_from_str() {
    assert_eq!("PUBLISH".parse::<Status>().unwrap(), Status::Publish);
    assert!("later".parse::<Status>().is_err());
    assert_eq!(
        "open".parse::<nibi::ingot::CommentStatus>().unwrap(),
        nibi::ingot::CommentStatus::Open
    );
    assert_eq!(
        "Open".parse::<nibi::ingot::CommentStatus>().unwrap(),
        nibi::ingot::CommentStatus::Close
    );
}

#[test]
fn collated_ids_survive_a_text_round_trip() {
    let collated = RKeyList::from_text("web, 1, Rust").collate(&index());
    assert_eq!(collated.to_text(), "4, 1, 1");
    let again = RKeyList::from_text(&collated.to_text()).collate(&index());
    assert_eq!(again, collated);
    assert_eq!(
        RKeyList::Raw(vec![RKeyRaw::String("news".to_string()), RKeyRaw::Usize(70)]).to_text(),
        "news, 70"
    );
    assert_eq!(RKeyList::CollatedId(vec![1234567890]).to_text(), "1234567890");
}

#[test]
fn padded_quoted_numbers_read_as_ids() {
    assert_eq!(RKeyRaw::from_text(" '12'\t"), RKeyRaw::Usize(12));
    assert_eq!(RKeyRaw::from_text("\u{3000}\"0\" "), RKeyRaw::Usize(0));
    assert_eq!(RKeyRaw::from_text(" 'x1' "), RKeyRaw::String("x1".to_string()));
}
