//! The document record and the collation of parsed key/value nodes into it.
use crate::text::{
    ascii_lower_seq, ascii_lowercase, chars_of, parse_usize, parsed_usize, string_from_chars,
    trim, trim_chars,
};
use crate::token::{BlockModel, BlockToken, NodeModel, TokenNode, node_model, nodes_model, opt_model};
use vstd::prelude::*;

verus! {

/// An instant as seconds and nanoseconds since the Unix epoch.
#[derive(Debug, Clone, Copy, PartialEq, Eq, Structural)]
pub struct Timestamp {
    pub second: i64,
    pub nanosecond: i32,
}

impl Timestamp {
    /// The Unix epoch.
    pub fn epoch() -> (r: Timestamp)
        ensures
            r == (Timestamp { second: 0, nanosecond: 0 }),
    {
        Timestamp { second: 0, nanosecond: 0 }
    }
}

/// What jiff reads from `s` as a timestamp: seconds and nanoseconds since the
/// Unix epoch, or nothing where the text is no timestamp.
pub uninterp spec fn timestamp_text(s: Seq<char>) -> Option<(i64, i32)>;

/// Relies on jiff's `Timestamp::from_str` (a date and time with an offset),
/// read back through `as_second` and `subsec_nanosecond`.
#[verifier::external_body]
fn parse_timestamp(s: &str) -> (r: Option<Timestamp>)
    ensures
        r == match timestamp_text(s@) {
            Some(t) => Some(Timestamp { second: t.0, nanosecond: t.1 }),
            None => None,
        },
{
    match s.parse::<jiff::Timestamp>() {
        Ok(t) => Some(Timestamp { second: t.as_second(), nanosecond: t.subsec_nanosecond() }),
        Err(_) => None,
    }
}

/// A reference to a category or tag, by name or by numeric id.
#[derive(Debug, Clone, PartialEq, Eq)]
pub enum RKeyRaw {
    String(String),
    Usize(usize),
}

/// Model of an [`RKeyRaw`].
pub enum RKeyModel {
    Name(Seq<char>),
    Id(usize),
}

impl View for RKeyRaw {
    type V = RKeyModel;

    open spec fn view(&self) -> RKeyModel {
        match self {
            RKeyRaw::String(s) => RKeyModel::Name(s@),
            RKeyRaw::Usize(n) => RKeyModel::Id(*n),
        }
    }
}

/// Whether `c` is a quote character.
pub open spec fn is_quote(c: char) -> bool {
    c == '"' || c == '\''
}

/// `s` without one quote character at its start and one at its end.
pub open spec fn unquote(s: Seq<char>) -> Seq<char> {
    let a = if s.len() > 0 && is_quote(s[0]) {
        s.drop_first()
    } else {
        s
    };
    if a.len() > 0 && is_quote(a.last()) {
        a.drop_last()
    } else {
        a
    }
}

/// The reference that a text item stands for: trimmed and unquoted, an id
/// where it reads as an unsigned number, else a name.
pub open spec fn rkey_of(s: Seq<char>) -> RKeyModel {
    let u = unquote(trim(s));
    match parsed_usize(u) {
        Some(n) => RKeyModel::Id(n),
        None => RKeyModel::Name(u),
    }
}

/// The pieces of `s` between commas, in order; there is always at least one.
pub open spec fn split_commas(s: Seq<char>) -> Seq<Seq<char>>
    decreases s.len(),
{
    if s.len() == 0 {
        seq![seq![]]
    } else {
        let r = split_commas(s.drop_last());
        if s.last() == ',' {
            r.push(seq![])
        } else {
            r.update(r.len() - 1, r.last().push(s.last()))
        }
    }
}

pub(crate) proof fn lemma_split_commas_nonempty(s: Seq<char>)
    ensures
        split_commas(s).len() >= 1,
    decreases s.len(),
{
    if s.len() > 0 {
        lemma_split_commas_nonempty(s.drop_last());
    }
}

impl RKeyRaw {
    /// The reference that `value` stands for: trimmed, one layer of quotes
    /// taken off, then an id where it reads as an unsigned number.
    pub fn from_text(value: &str) -> (r: RKeyRaw)
        ensures
            r@ == rkey_of(value@),
    {
        let trimmed = trim_chars(&chars_of(value));
        let n = trimmed.len();
        let from: usize = if n > 0 && (trimmed[0] == '"' || trimmed[0] == '\'') {
            1
        } else {
            0
        };
        let to: usize = if n > from && (trimmed[n - 1] == '"' || trimmed[n - 1] == '\'') {
            n - 1
        } else {
            n
        };
        let mut u: Vec<char> = Vec::new();
        let mut k: usize = from;
        while k < to
            invariant
                from <= k <= to <= n == trimmed.len(),
                u@ == trimmed@.subrange(from as int, k as int),
            decreases to - k,
        {
            u.push(trimmed[k]);
            assert(trimmed@.subrange(from as int, k + 1) =~= trimmed@.subrange(
                from as int,
                k as int,
            ).push(trimmed@[k as int]));
            k = k + 1;
        }
        proof {
            let t = trimmed@;
            let a = if t.len() > 0 && is_quote(t[0]) {
                t.drop_first()
            } else {
                t
            };
            assert(a =~= t.subrange(from as int, n as int));
            if a.len() > 0 && is_quote(a.last()) {
                assert(a.drop_last() =~= t.subrange(from as int, to as int));
            } else {
                assert(a =~= t.subrange(from as int, to as int));
            }
        }
        match parse_usize(&u) {
            Some(id) => RKeyRaw::Usize(id),
            None => RKeyRaw::String(string_from_chars(&u)),
        }
    }
}

/// A list of category or tag references: raw as written, or resolved to ids.
#[derive(Debug, Clone, PartialEq, Eq)]
pub enum RKeyList {
    Raw(Vec<RKeyRaw>),
    CollatedId(Vec<usize>),
}

/// Model of an [`RKeyList`].
pub enum KeyListModel {
    Raw(Seq<RKeyModel>),
    CollatedId(Seq<usize>),
}

impl View for RKeyList {
    type V = KeyListModel;

    open spec fn view(&self) -> KeyListModel {
        match self {
            RKeyList::Raw(v) => KeyListModel::Raw(v@.map_values(|k: RKeyRaw| k@)),
            RKeyList::CollatedId(v) => KeyListModel::CollatedId(v@),
        }
    }
}

/// The references in a comma-separated text.
pub open spec fn text_keys(s: Seq<char>) -> Seq<RKeyModel> {
    split_commas(s).map_values(|x: Seq<char>| rkey_of(x))
}

/// The text of a quoted or unquoted string node.
pub open spec fn block_string(b: BlockModel) -> Option<Seq<char>> {
    match b {
        BlockModel::QuotedString(_, s) => Some(s),
        BlockModel::UnquotedString(s) => Some(s),
        _ => None,
    }
}

/// The references in the string elements of an array; other elements are
/// left out.
pub open spec fn array_keys(items: Seq<NodeModel>) -> Seq<RKeyModel>
    decreases items.len(),
{
    if items.len() == 0 {
        seq![]
    } else {
        let rest = array_keys(items.drop_last());
        match block_string(items.last().token) {
            Some(v) => rest.push(rkey_of(v)),
            None => rest,
        }
    }
}

/// The reference list that a value node stands for: a string is split at
/// commas, an array gives its string elements, anything else gives none.
pub open spec fn block_keys(b: BlockModel) -> KeyListModel {
    match b {
        BlockModel::QuotedString(_, s) => KeyListModel::Raw(text_keys(s)),
        BlockModel::UnquotedString(s) => KeyListModel::Raw(text_keys(s)),
        BlockModel::Array(items) => KeyListModel::Raw(array_keys(items)),
        _ => KeyListModel::Raw(seq![]),
    }
}

impl RKeyList {
    /// The empty raw list.
    pub fn new() -> (r: RKeyList)
        ensures
            r@ == KeyListModel::Raw(seq![]),
    {
        let r = RKeyList::Raw(Vec::new());
        assert(r@->Raw_0 =~= Seq::<RKeyModel>::empty());
        r
    }

    /// The references in a comma-separated text.
    pub fn from_text(value: &str) -> (r: RKeyList)
        ensures
            r@ == KeyListModel::Raw(text_keys(value@)),
    {
        let chars = chars_of(value);
        let mut keys: Vec<RKeyRaw> = Vec::new();
        let mut piece: Vec<char> = Vec::new();
        let mut k: usize = 0;
        while k < chars.len()
            invariant
                k <= chars.len(),
                keys@.map_values(|x: RKeyRaw| x@) =~= split_commas(
                    chars@.subrange(0, k as int),
                ).drop_last().map_values(|x: Seq<char>| rkey_of(x)),
                piece@ == split_commas(chars@.subrange(0, k as int)).last(),
                split_commas(chars@.subrange(0, k as int)).len() >= 1,
            decreases chars.len() - k,
        {
            let ghost before = chars@.subrange(0, k as int);
            let ghost after = chars@.subrange(0, k + 1);
            proof {
                assert(after.drop_last() =~= before);
                lemma_split_commas_nonempty(before);
            }
            let c = chars[k];
            if c == ',' {
                let s = string_from_chars(&piece);
                let key = RKeyRaw::from_text(s.as_str());
                let ghost keys0 = keys@;
                let ghost piece0 = piece@;
                keys.push(key);
                piece = Vec::new();
                proof {
                    assert(key@ == rkey_of(piece0));
                    assert(keys@.map_values(|x: RKeyRaw| x@) =~= keys0.map_values(|x: RKeyRaw| x@).push(
                        rkey_of(piece0),
                    ));
                    assert(split_commas(after) == split_commas(before).push(seq![]));
                    assert(split_commas(after).drop_last() =~= split_commas(before));
                    assert(split_commas(before) =~= split_commas(before).drop_last().push(
                        split_commas(before).last(),
                    ));
                    assert(keys@.map_values(|x: RKeyRaw| x@) =~= split_commas(
                        after,
                    ).drop_last().map_values(|x: Seq<char>| rkey_of(x)));
                    assert(piece@ =~= split_commas(after).last());
                }
            } else {
                piece.push(c);
                proof {
                    assert(split_commas(after) == split_commas(before).update(
                        split_commas(before).len() - 1,
                        split_commas(before).last().push(c),
                    ));
                    assert(split_commas(after).drop_last() =~= split_commas(before).drop_last());
                }
            }
            k = k + 1;
        }
        proof {
            assert(chars@.subrange(0, chars@.len() as int) =~= chars@);
        }
        let s = string_from_chars(&piece);
        let ghost keys0 = keys@;
        let last = RKeyRaw::from_text(s.as_str());
        keys.push(last);
        proof {
            let sp = split_commas(chars@);
            assert(keys@.map_values(|x: RKeyRaw| x@) =~= keys0.map_values(|x: RKeyRaw| x@).push(
                rkey_of(piece@),
            ));
            assert(sp =~= sp.drop_last().push(sp.last()));
            assert(keys@.map_values(|x: RKeyRaw| x@) =~= sp.map_values(|x: Seq<char>| rkey_of(x)));
        }
        RKeyList::Raw(keys)
    }

    /// The reference list that a value node stands for: a string is split at
    /// commas, an array gives its string elements, anything else gives none.
    pub fn from_token(value: BlockToken) -> (r: RKeyList)
        ensures
            r@ == block_keys(crate::token::block_model(value)),
    {
        match value {
            BlockToken::QuotedString(_, s) => RKeyList::from_text(s.as_str()),
            BlockToken::UnquotedString(s) => RKeyList::from_text(s.as_str()),
            BlockToken::Array(items) => {
                let mut keys: Vec<RKeyRaw> = Vec::new();
                let mut k: usize = 0;
                while k < items.len()
                    invariant
                        k <= items.len(),
                        keys@.map_values(|x: RKeyRaw| x@) =~= array_keys(
                            nodes_model(items@.subrange(0, k as int)),
                        ),
                    decreases items.len() - k,
                {
                    proof {
                        crate::token::lemma_nodes_model_push(
                            items@.subrange(0, k as int),
                            items@[k as int],
                        );
                        assert(items@.subrange(0, k + 1) =~= items@.subrange(0, k as int).push(
                            items@[k as int],
                        ));
                        let ms = nodes_model(items@.subrange(0, k + 1));
                        assert(ms.drop_last() =~= nodes_model(items@.subrange(0, k as int)));
                    }
                    match items[k].get_string_value() {
                        Some(s) => {
                            keys.push(RKeyRaw::from_text(s));
                        },
                        None => {},
                    }
                    k = k + 1;
                }
                proof {
                    assert(items@.subrange(0, items@.len() as int) =~= items@);
                }
                RKeyList::Raw(keys)
            },
            _ => RKeyList::new(),
        }
    }
}

impl Default for RKeyList {
    fn default() -> (r: RKeyList)
        ensures
            r@ == KeyListModel::Raw(seq![]),
    {
        RKeyList::new()
    }
}

/// Whether the characters `a` spell `w`.
pub fn word_is(a: &Vec<char>, w: &str) -> (r: bool)
    ensures
        r == (a@ == w@),
{
    let n = w.unicode_len();
    if n != a.len() {
        return false;
    }
    let mut k: usize = 0;
    while k < n
        invariant
            k <= n == a.len() == w@.len(),
            forall|j: int| 0 <= j < k ==> a@[j] == w@[j],
        decreases n - k,
    {
        if a[k] != w.get_char(k) {
            return false;
        }
        k = k + 1;
    }
    assert(a@ =~= w@);
    true
}

/// The publication state of a document.
#[derive(Debug, Clone, Copy, PartialEq, Eq, Structural)]
pub enum Status {
    Draft,
    Publish,
    Private,
}

/// The state that `s` names, in any ASCII case.
pub open spec fn status_of(s: Seq<char>) -> Option<Status> {
    let l = ascii_lower_seq(s);
    if l == "draft"@ {
        Some(Status::Draft)
    } else if l == "publish"@ {
        Some(Status::Publish)
    } else if l == "private"@ {
        Some(Status::Private)
    } else {
        None
    }
}

impl Status {
    /// The state that `s` names, in any ASCII case; anything else is invalid.
    pub fn from_text(s: &str) -> (r: Result<Status, ParseError>)
        ensures
            r matches Ok(st) ==> status_of(s@) == Some(st),
            r is Err ==> status_of(s@) is None && r == Err::<Status, ParseError>(
                ParseError::Invalid,
            ),
    {
        let l = ascii_lowercase(&chars_of(s));
        if word_is(&l, "draft") {
            Ok(Status::Draft)
        } else if word_is(&l, "publish") {
            Ok(Status::Publish)
        } else if word_is(&l, "private") {
            Ok(Status::Private)
        } else {
            Err(ParseError::Invalid)
        }
    }
}

impl std::str::FromStr for Status {
    type Err = ParseError;

    fn from_str(s: &str) -> Result<Status, ParseError> {
        Status::from_text(s)
    }
}

impl Default for Status {
    fn default() -> (r: Status)
        ensures
            r == Status::Draft,
    {
        Status::Draft
    }
}

/// What a document is rendered as.
#[derive(Debug, Clone, PartialEq, Eq)]
pub enum To {
    Post,
    Page,
    Article,
    Top,
    AsIs,
    Custom(String),
}

/// Model of a [`To`].
pub enum ToModel {
    Post,
    Page,
    Article,
    Top,
    AsIs,
    Custom(Seq<char>),
}

impl View for To {
    type V = ToModel;

    open spec fn view(&self) -> ToModel {
        match self {
            To::Post => ToModel::Post,
            To::Page => ToModel::Page,
            To::Article => ToModel::Article,
            To::Top => ToModel::Top,
            To::AsIs => ToModel::AsIs,
            To::Custom(s) => ToModel::Custom(s@),
        }
    }
}

/// The target that `s` names in any ASCII case; any other text is a custom
/// target, in lower case.
pub open spec fn to_of(s: Seq<char>) -> ToModel {
    let l = ascii_lower_seq(s);
    if l == "post"@ {
        ToModel::Post
    } else if l == "page"@ {
        ToModel::Page
    } else if l == "article"@ {
        ToModel::Article
    } else if l == "top"@ {
        ToModel::Top
    } else if l == "asis"@ {
        ToModel::AsIs
    } else {
        ToModel::Custom(l)
    }
}

impl To {
    /// The target that `s` names in any ASCII case; any other text is a
    /// custom target, in lower case.
    pub fn from_text(s: &str) -> (r: To)
        ensures
            r@ == to_of(s@),
    {
        let l = ascii_lowercase(&chars_of(s));
        if word_is(&l, "post") {
            To::Post
        } else if word_is(&l, "page") {
            To::Page
        } else if word_is(&l, "article") {
            To::Article
        } else if word_is(&l, "top") {
            To::Top
        } else if word_is(&l, "asis") {
            To::AsIs
        } else {
            To::Custom(string_from_chars(&l))
        }
    }
}

impl Default for To {
    fn default() -> (r: To)
        ensures
            r@ == ToModel::Post,
    {
        To::Post
    }
}

/// Whether comments on a document are open.
#[derive(Debug, Clone, Copy, PartialEq, Eq, Structural)]
pub enum CommentStatus {
    Open,
    Close,
}

impl CommentStatus {
    /// `Open` for the text `open`, else `Close`.
    pub fn from_text(s: &str) -> (r: CommentStatus)
        ensures
            r == (if s@ == "open"@ {
                CommentStatus::Open
            } else {
                CommentStatus::Close
            }),
    {
        if word_is(&chars_of(s), "open") {
            CommentStatus::Open
        } else {
            CommentStatus::Close
        }
    }
}

impl std::str::FromStr for CommentStatus {
    type Err = ParseError;

    fn from_str(s: &str) -> Result<CommentStatus, ParseError> {
        Ok(CommentStatus::from_text(s))
    }
}

impl Default for CommentStatus {
    fn default() -> (r: CommentStatus)
        ensures
            r == CommentStatus::Close,
    {
        CommentStatus::Close
    }
}

/// std's I/O error, carried through opaquely.
#[verifier::external_type_specification]
#[verifier::external_body]
pub struct ExIoError(std::io::Error);

/// Why a document could not be read.
#[derive(Debug)]
pub enum ParseError {
    Invalid,
    Empty,
    IO(std::io::Error),
}

/// The document record.
#[derive(Debug)]
pub struct Ingot {
    pub id: usize,
    pub author: usize,
    pub pname: String,
    pub path: String,
    pub published: Timestamp,
    pub content: String,
    pub title: String,
    pub excerpt: String,
    pub status: Status,
    pub comment_status: CommentStatus,
    pub updated: Timestamp,
    pub tags: RKeyList,
    pub categories: RKeyList,
    pub to: To,
}

/// Model of an [`Ingot`].
pub struct IngotModel {
    pub id: usize,
    pub author: usize,
    pub pname: Seq<char>,
    pub path: Seq<char>,
    pub published: Timestamp,
    pub content: Seq<char>,
    pub title: Seq<char>,
    pub excerpt: Seq<char>,
    pub status: Status,
    pub comment_status: CommentStatus,
    pub updated: Timestamp,
    pub tags: KeyListModel,
    pub categories: KeyListModel,
    pub to: ToModel,
}

impl View for Ingot {
    type V = IngotModel;

    open spec fn view(&self) -> IngotModel {
        IngotModel {
            id: self.id,
            author: self.author,
            pname: self.pname@,
            path: self.path@,
            published: self.published,
            content: self.content@,
            title: self.title@,
            excerpt: self.excerpt@,
            status: self.status,
            comment_status: self.comment_status,
            updated: self.updated,
            tags: self.tags@,
            categories: self.categories@,
            to: self.to@,
        }
    }
}

/// The record with every field at its zero value and the given id.
pub open spec fn zero_record(id: usize) -> IngotModel {
    IngotModel {
        id,
        author: 0,
        pname: seq![],
        path: seq![],
        published: Timestamp { second: 0, nanosecond: 0 },
        content: seq![],
        title: seq![],
        excerpt: seq![],
        status: Status::Draft,
        comment_status: CommentStatus::Close,
        updated: Timestamp { second: 0, nanosecond: 0 },
        tags: KeyListModel::Raw(seq![]),
        categories: KeyListModel::Raw(seq![]),
        to: ToModel::Post,
    }
}

impl Ingot {
    /// A record with the given id and every other field at its zero value.
    pub fn new(id: usize) -> (r: Ingot)
        ensures
            r@ == zero_record(id),
    {
        let r = Ingot {
            id,
            author: 0,
            pname: String::new(),
            path: String::new(),
            published: Timestamp::epoch(),
            content: String::new(),
            title: String::new(),
            excerpt: String::new(),
            status: Status::Draft,
            comment_status: CommentStatus::Close,
            updated: Timestamp::epoch(),
            tags: RKeyList::new(),
            categories: RKeyList::new(),
            to: To::Post,
        };
        assert(r@.pname =~= seq![]);
        assert(r@.path =~= seq![]);
        assert(r@.content =~= seq![]);
        assert(r@.title =~= seq![]);
        assert(r@.excerpt =~= seq![]);
        r
    }
}

impl Default for Ingot {
    fn default() -> (r: Ingot)
        ensures
            r@ == zero_record(0),
    {
        Ingot::new(0)
    }
}

/// Whether the lower-cased key `k` is one of the names of the url path name.
pub open spec fn is_pname_key(k: Seq<char>) -> bool {
    k == "pname"@ || k == "path_name"@ || k == "url_path_name"@ || k == "path_url_name"@ || k
        == "post_url_name"@ || k == "page_url_name"@
}

/// The record after the key/value pair `key`/`value` is folded into it. Keys
/// are matched in ASCII lower case; an unknown key, a missing value or a
/// value that does not convert leaves the record as it is.
pub open spec fn apply_key_value(m: IngotModel, key: Seq<char>, value: Option<NodeModel>) -> IngotModel {
    match value {
        None => m,
        Some(n) => {
            let k = ascii_lower_seq(key);
            let text = match block_string(n.token) {
                Some(s) => s,
                None => seq![],
            };
            let t = trim(text);
            if k == "tags"@ || k == "tag"@ {
                IngotModel { tags: block_keys(n.token), ..m }
            } else if k == "categories"@ || k == "category"@ {
                IngotModel { categories: block_keys(n.token), ..m }
            } else if k == "type"@ || k == "to"@ {
                IngotModel { to: to_of(t), ..m }
            } else if k == "status"@ {
                match status_of(t) {
                    Some(st) => IngotModel { status: st, ..m },
                    None => m,
                }
            } else if k == "updated"@ || k == "modified"@ {
                match timestamp_text(t) {
                    Some(ts) => IngotModel {
                        updated: Timestamp { second: ts.0, nanosecond: ts.1 },
                        ..m
                    },
                    None => m,
                }
            } else if k == "created"@ || k == "published"@ {
                match timestamp_text(t) {
                    Some(ts) => IngotModel {
                        published: Timestamp { second: ts.0, nanosecond: ts.1 },
                        ..m
                    },
                    None => m,
                }
            } else if k == "ingot_id"@ || k == "id"@ {
                match parsed_usize(t) {
                    Some(v) => IngotModel { id: v, ..m },
                    None => m,
                }
            } else if k == "author"@ {
                match parsed_usize(t) {
                    Some(v) => IngotModel { author: v, ..m },
                    None => m,
                }
            } else if is_pname_key(k) {
                if text.len() > 0 {
                    IngotModel { pname: text, ..m }
                } else {
                    m
                }
            } else {
                m
            }
        },
    }
}

/// The document parser.
#[derive(Debug)]
pub struct IngotParser {}

impl IngotParser {
    /// Folds the key/value pair `key`/`value` into `result`. Keys are matched in
    /// ASCII lower case; an unknown key, a missing value or a value that does not
    /// convert leaves the record as it is.
    pub fn set_from_key_value(result: &mut Ingot, key: String, value: Option<TokenNode>)
        ensures
            final(result)@ == apply_key_value(old(result)@, key@, opt_model(value)),
    {
        match value {
            None => {},
            Some(v) => {
                let k = ascii_lowercase(&chars_of(key.as_str()));
                let token = v.token;
                let text = token.get_string_value_or_empty();
                let t = trim_chars(&chars_of(text.as_str()));
                let ghost n = node_model(v);
                proof {
                    assert(block_string(n.token) == token.spec_string_value());
                }
                if word_is(&k, "tags") || word_is(&k, "tag") {
                    result.tags = RKeyList::from_token(token);
                } else if word_is(&k, "categories") || word_is(&k, "category") {
                    result.categories = RKeyList::from_token(token);
                } else if word_is(&k, "type") || word_is(&k, "to") {
                    result.to = To::from_text(string_from_chars(&t).as_str());
                } else if word_is(&k, "status") {
                    match Status::from_text(string_from_chars(&t).as_str()) {
                        Ok(st) => {
                            result.status = st;
                        },
                        Err(_) => {},
                    }
                } else if word_is(&k, "updated") || word_is(&k, "modified") {
                    match parse_timestamp(string_from_chars(&t).as_str()) {
                        Some(ts) => {
                            result.updated = ts;
                        },
                        None => {},
                    }
                } else if word_is(&k, "created") || word_is(&k, "published") {
                    match parse_timestamp(string_from_chars(&t).as_str()) {
                        Some(ts) => {
                            result.published = ts;
                        },
                        None => {},
                    }
                } else if word_is(&k, "ingot_id") || word_is(&k, "id") {
                    match parse_usize(&t) {
                        Some(id) => {
                            result.id = id;
                        },
                        None => {},
                    }
                } else if word_is(&k, "author") {
                    match parse_usize(&t) {
                        Some(id) => {
                            result.author = id;
                        },
                        None => {},
                    }
                } else if word_is(&k, "pname") || word_is(&k, "path_name") || word_is(
                    &k,
                    "url_path_name",
                ) || word_is(&k, "path_url_name") || word_is(&k, "post_url_name") || word_is(
                    &k,
                    "page_url_name",
                ) {
                    if chars_of(text.as_str()).len() > 0 {
                        result.pname = text;
                    }
                }
            },
        }
    }

}

} // verus!
