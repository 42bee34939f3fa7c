//! The lexical alphabet of the matter dialect (raw tokens) and the nodes of
//! the token tree, each with a mathematical model.
use std::collections::BTreeMap;
use vstd::prelude::*;

verus! {

/// A separator between values.
#[derive(Debug, Clone, PartialEq, Eq)]
pub enum Sep {
    Comma,
    Colon,
    WhiteSpaces(String),
    NewLine,
}

/// Model of a [`Sep`]: the whitespace run as a character sequence.
pub enum SepModel {
    Comma,
    Colon,
    WhiteSpaces(Seq<char>),
    NewLine,
}

impl View for Sep {
    type V = SepModel;

    open spec fn view(&self) -> SepModel {
        match self {
            Sep::Comma => SepModel::Comma,
            Sep::Colon => SepModel::Colon,
            Sep::WhiteSpaces(s) => SepModel::WhiteSpaces(s@),
            Sep::NewLine => SepModel::NewLine,
        }
    }
}

/// The text that a separator stands for.
pub open spec fn sep_text(s: SepModel) -> Seq<char> {
    match s {
        SepModel::Comma => seq![','],
        SepModel::Colon => seq![':'],
        SepModel::WhiteSpaces(w) => w,
        SepModel::NewLine => seq!['\n'],
    }
}

impl Sep {
    /// The text of the separator.
    pub fn get_as_string(&self) -> (r: String)
        ensures
            r@ == sep_text(self@),
    {
        let mut r = String::new();
        match self {
            Sep::Comma => crate::text::push_char(&mut r, ','),
            Sep::Colon => crate::text::push_char(&mut r, ':'),
            Sep::WhiteSpaces(s) => {
                r = s.clone();
            },
            Sep::NewLine => crate::text::push_char(&mut r, '\n'),
        }
        proof {
            if !(self is WhiteSpaces) {
                assert(r@ =~= sep_text(self@));
            }
        }
        r
    }
}

/// Whether a bracket opens or closes.
#[derive(Debug, Clone, Copy, PartialEq, Eq, Structural)]
pub enum BracketRole {
    Start,
    End,
}

/// The shape of a bracket.
#[derive(Debug, Clone, Copy, PartialEq, Eq, Structural)]
pub enum BracketType {
    Curly,
    Square,
    Angle,
    Normal,
}

/// One bracket character.
#[derive(Debug, Clone, Copy, PartialEq, Eq, Structural)]
pub struct Bracket {
    pub role: BracketRole,
    pub bracket_type: BracketType,
}

impl Bracket {
    /// The character of a bracket.
    pub open spec fn spec_char(self) -> char {
        match (self.role, self.bracket_type) {
            (BracketRole::Start, BracketType::Curly) => '{',
            (BracketRole::End, BracketType::Curly) => '}',
            (BracketRole::Start, BracketType::Square) => '[',
            (BracketRole::End, BracketType::Square) => ']',
            (BracketRole::Start, BracketType::Angle) => '<',
            (BracketRole::End, BracketType::Angle) => '>',
            (BracketRole::Start, BracketType::Normal) => '(',
            (BracketRole::End, BracketType::Normal) => ')',
        }
    }

    pub fn new(role: BracketRole, bracket: BracketType) -> (r: Self)
        ensures
            r.role == role,
            r.bracket_type == bracket,
    {
        Self { role, bracket_type: bracket }
    }

    /// The bracket's character.
    pub fn get_as_char(&self) -> (c: char)
        ensures
            c == self.spec_char(),
    {
        match (&self.role, &self.bracket_type) {
            (BracketRole::Start, BracketType::Curly) => '{',
            (BracketRole::End, BracketType::Curly) => '}',
            (BracketRole::Start, BracketType::Square) => '[',
            (BracketRole::End, BracketType::Square) => ']',
            (BracketRole::Start, BracketType::Angle) => '<',
            (BracketRole::End, BracketType::Angle) => '>',
            (BracketRole::Start, BracketType::Normal) => '(',
            (BracketRole::End, BracketType::Normal) => ')',
        }
    }

    pub fn get_role(&self) -> (r: &BracketRole)
        ensures
            *r == self.role,
    {
        &self.role
    }

    pub fn get_type(&self) -> (r: &BracketType)
        ensures
            *r == self.bracket_type,
    {
        &self.bracket_type
    }
}

impl From<(BracketRole, BracketType)> for Bracket {
    fn from(value: (BracketRole, BracketType)) -> (r: Bracket)
        ensures
            r.role == value.0,
            r.bracket_type == value.1,
    {
        Bracket { role: value.0, bracket_type: value.1 }
    }
}

impl vstd::std_specs::convert::FromSpecImpl<(BracketRole, BracketType)> for Bracket {
    open spec fn obeys_from_spec() -> bool {
        true
    }

    open spec fn from_spec(value: (BracketRole, BracketType)) -> Bracket {
        Bracket { role: value.0, bracket_type: value.1 }
    }
}

/// A quote character.
#[derive(Debug, Clone, Copy, PartialEq, Eq, Structural)]
pub enum Quote {
    Single,
    Double,
}

impl Quote {
    /// The quote's character.
    pub open spec fn spec_char(self) -> char {
        match self {
            Quote::Single => '\'',
            Quote::Double => '"',
        }
    }

    /// The quote's character.
    pub fn get_as_char(&self) -> (c: char)
        ensures
            c == self.spec_char(),
    {
        match self {
            Quote::Single => '\'',
            Quote::Double => '"',
        }
    }
}

/// A comment delimiter.
#[derive(Debug, Clone, Copy, PartialEq, Eq, Structural)]
pub enum CommentMark {
    LineBegin,
    BlockBegin,
    BlockEnd,
}

/// The two characters of a comment delimiter.
pub open spec fn mark_text(m: CommentMark) -> Seq<char> {
    match m {
        CommentMark::LineBegin => seq!['/', '/'],
        CommentMark::BlockBegin => seq!['/', '*'],
        CommentMark::BlockEnd => seq!['*', '/'],
    }
}

impl CommentMark {
    /// The delimiter's text.
    pub fn get_as_string(&self) -> (r: String)
        ensures
            r@ == mark_text(*self),
    {
        let mut r = String::new();
        match self {
            CommentMark::LineBegin => {
                crate::text::push_char(&mut r, '/');
                crate::text::push_char(&mut r, '/');
            },
            CommentMark::BlockBegin => {
                crate::text::push_char(&mut r, '/');
                crate::text::push_char(&mut r, '*');
            },
            CommentMark::BlockEnd => {
                crate::text::push_char(&mut r, '*');
                crate::text::push_char(&mut r, '/');
            },
        }
        assert(r@ =~= mark_text(*self));
        r
    }
}

/// One lexical token.
#[derive(Debug, Clone, PartialEq, Eq)]
pub enum RawToken {
    Quote(Quote),
    SimpleString(String),
    Sep(Sep),
    Bracket(Bracket),
    Comment(CommentMark),
    Eos,
}

/// Model of a [`RawToken`].
pub enum TokenModel {
    Quote(Quote),
    SimpleString(Seq<char>),
    Sep(SepModel),
    Bracket(Bracket),
    Comment(CommentMark),
    Eos,
}

impl View for RawToken {
    type V = TokenModel;

    open spec fn view(&self) -> TokenModel {
        match self {
            RawToken::Quote(q) => TokenModel::Quote(*q),
            RawToken::SimpleString(s) => TokenModel::SimpleString(s@),
            RawToken::Sep(s) => TokenModel::Sep(s@),
            RawToken::Bracket(b) => TokenModel::Bracket(*b),
            RawToken::Comment(m) => TokenModel::Comment(*m),
            RawToken::Eos => TokenModel::Eos,
        }
    }
}

/// The text that a token stands for; the end of the stream stands for none.
pub open spec fn token_text(t: TokenModel) -> Seq<char> {
    match t {
        TokenModel::Quote(q) => seq![q.spec_char()],
        TokenModel::SimpleString(s) => s,
        TokenModel::Sep(s) => sep_text(s),
        TokenModel::Bracket(b) => seq![b.spec_char()],
        TokenModel::Comment(m) => mark_text(m),
        TokenModel::Eos => seq![],
    }
}

impl RawToken {
    /// The text of the token.
    pub fn get_as_string(&self) -> (r: String)
        ensures
            r@ == token_text(self@),
    {
        match self {
            RawToken::SimpleString(s) => s.clone(),
            RawToken::Quote(q) => {
                let mut r = String::new();
                crate::text::push_char(&mut r, q.get_as_char());
                assert(r@ =~= token_text(self@));
                r
            },
            RawToken::Sep(s) => s.get_as_string(),
            RawToken::Bracket(b) => {
                let mut r = String::new();
                crate::text::push_char(&mut r, b.get_as_char());
                assert(r@ =~= token_text(self@));
                r
            },
            RawToken::Comment(m) => m.get_as_string(),
            RawToken::Eos => {
                let r = String::new();
                assert(r@ =~= token_text(self@));
                r
            },
        }
    }

    /// A copy of the token.
    pub fn duplicate(&self) -> (r: RawToken)
        ensures
            r@ == self@,
    {
        match self {
            RawToken::Quote(q) => RawToken::Quote(*q),
            RawToken::SimpleString(s) => RawToken::SimpleString(s.clone()),
            RawToken::Sep(Sep::Comma) => RawToken::Sep(Sep::Comma),
            RawToken::Sep(Sep::Colon) => RawToken::Sep(Sep::Colon),
            RawToken::Sep(Sep::WhiteSpaces(s)) => RawToken::Sep(Sep::WhiteSpaces(s.clone())),
            RawToken::Sep(Sep::NewLine) => RawToken::Sep(Sep::NewLine),
            RawToken::Bracket(b) => RawToken::Bracket(*b),
            RawToken::Comment(m) => RawToken::Comment(*m),
            RawToken::Eos => RawToken::Eos,
        }
    }
}

/// A token with the character offset at which it begins.
pub type RawTokenData = (usize, RawToken);

/// Model of a token sequence: offsets with token models.
pub open spec fn tokens_model(v: Seq<RawTokenData>) -> Seq<(usize, TokenModel)> {
    v.map_values(|p: RawTokenData| (p.0, p.1@))
}

/// The starting offset of a node.
#[derive(Debug, Clone, Copy, PartialEq, Eq, Structural)]
pub struct Pos {
    pub start: usize,
}

impl Pos {
    pub fn new(start: usize) -> (r: Pos)
        ensures
            r.start == start,
    {
        Pos { start }
    }

    pub fn start(&self) -> (r: &usize)
        ensures
            *r == self.start,
    {
        &self.start
    }

    pub fn mut_start(&mut self) -> (r: &mut usize)
        ensures
            *r == old(self).start,
            final(self).start == *final(r),
    {
        &mut self.start
    }
}

impl From<usize> for Pos {
    fn from(value: usize) -> (r: Pos)
        ensures
            r.start == value,
    {
        Pos { start: value }
    }
}

impl vstd::std_specs::convert::FromSpecImpl<usize> for Pos {
    open spec fn obeys_from_spec() -> bool {
        true
    }

    open spec fn from_spec(value: usize) -> Pos {
        Pos { start: value }
    }
}

/// The payload of a token-tree node.
#[derive(Debug, PartialEq, Eq)]
pub enum BlockToken {
    QuotedString(Quote, String),
    UnquotedString(String),
    Array(Vec<TokenNode>),
    KeyMap(BTreeMap<String, TokenNode>),
    Comment(String),
    KeyValue(String, Box<Option<TokenNode>>),
}

/// One node of the token tree.
#[derive(Debug, PartialEq, Eq)]
pub struct TokenNode {
    pub pos: Pos,
    pub token: BlockToken,
}

/// Model of a [`BlockToken`]; a map literal keeps no model of its entries.
pub enum BlockModel {
    QuotedString(Quote, Seq<char>),
    UnquotedString(Seq<char>),
    Array(Seq<NodeModel>),
    KeyMap,
    Comment(Seq<char>),
    KeyValue(Seq<char>, Option<Box<NodeModel>>),
}

/// Model of a [`TokenNode`].
pub struct NodeModel {
    pub start: usize,
    pub token: BlockModel,
}

/// Model of a node.
pub open spec fn node_model(n: TokenNode) -> NodeModel
    decreases n,
{
    NodeModel { start: n.pos.start, token: block_model(n.token) }
}

/// Model of a payload.
pub open spec fn block_model(b: BlockToken) -> BlockModel
    decreases b,
{
    match b {
        BlockToken::QuotedString(q, s) => BlockModel::QuotedString(q, s@),
        BlockToken::UnquotedString(s) => BlockModel::UnquotedString(s@),
        BlockToken::Array(v) => BlockModel::Array(nodes_model(v@)),
        BlockToken::KeyMap(_) => BlockModel::KeyMap,
        BlockToken::Comment(s) => BlockModel::Comment(s@),
        BlockToken::KeyValue(k, v) => BlockModel::KeyValue(k@, boxed(opt_model(*v))),
    }
}

/// Model of an optional node.
pub open spec fn opt_model(o: Option<TokenNode>) -> Option<NodeModel>
    decreases o,
{
    match o {
        Some(n) => Some(node_model(n)),
        None => None,
    }
}

/// An optional node model, boxed as a key/value node holds it.
pub open spec fn boxed(o: Option<NodeModel>) -> Option<Box<NodeModel>> {
    match o {
        Some(n) => Some(Box::new(n)),
        None => None,
    }
}

/// Models of a sequence of nodes, in order.
pub open spec fn nodes_model(s: Seq<TokenNode>) -> Seq<NodeModel>
    decreases s,
{
    if s.len() == 0 {
        seq![]
    } else {
        seq![node_model(s[0])] + nodes_model(s.subrange(1, s.len() as int))
    }
}

/// Appending a node appends its model.
pub proof fn lemma_nodes_model_push(s: Seq<TokenNode>, n: TokenNode)
    ensures
        nodes_model(s.push(n)) == nodes_model(s).push(node_model(n)),
    decreases s.len(),
{
    if s.len() == 0 {
        let t = s.push(n);
        assert(t.subrange(1, 1) =~= Seq::<TokenNode>::empty());
        assert(t[0] == n);
        assert(nodes_model(t.subrange(1, 1)) =~= Seq::<NodeModel>::empty());
        assert(nodes_model(t) =~= seq![node_model(n)]);
    } else {
        let t = s.push(n);
        assert(t.subrange(1, t.len() as int) =~= s.subrange(1, s.len() as int).push(n));
        lemma_nodes_model_push(s.subrange(1, s.len() as int), n);
        assert(nodes_model(t) =~= nodes_model(s).push(node_model(n)));
    }
}

impl View for TokenNode {
    type V = NodeModel;

    open spec fn view(&self) -> NodeModel {
        node_model(*self)
    }
}

impl BlockToken {
    /// The text of a quoted or unquoted string.
    pub open spec fn spec_string_value(self) -> Option<Seq<char>> {
        match self {
            BlockToken::QuotedString(_, s) => Some(s@),
            BlockToken::UnquotedString(s) => Some(s@),
            _ => None,
        }
    }

    /// The text of a quoted or unquoted string.
    pub fn get_string_value(&self) -> (r: Option<&str>)
        ensures
            r matches Some(s) ==> self.spec_string_value() == Some(s@),
            r is None ==> self.spec_string_value() is None,
    {
        match self {
            BlockToken::QuotedString(_, s) => Some(s.as_str()),
            BlockToken::UnquotedString(s) => Some(s.as_str()),
            _ => None,
        }
    }

    /// The text of a quoted or unquoted string, else the empty string.
    pub fn get_string_value_or_empty(&self) -> (r: String)
        ensures
            r@ == match self.spec_string_value() {
                Some(s) => s,
                None => Seq::<char>::empty(),
            },
    {
        match self {
            BlockToken::QuotedString(_, s) => s.clone(),
            BlockToken::UnquotedString(s) => s.clone(),
            _ => String::new(),
        }
    }
}

impl TokenNode {
    pub fn new(pos: usize, token: BlockToken) -> (r: TokenNode)
        ensures
            r.pos.start == pos,
            r.token == token,
    {
        TokenNode { pos: Pos { start: pos }, token }
    }

    /// The text of a quoted or unquoted string node.
    pub fn get_string_value(&self) -> (r: Option<&str>)
        ensures
            r matches Some(s) ==> self.token.spec_string_value() == Some(s@),
            r is None ==> self.token.spec_string_value() is None,
    {
        self.token.get_string_value()
    }
}

} // verus!
