//! The recursive-descent token-tree parser: groups raw tokens into scalars,
//! arrays, comments and key/value nodes.
use crate::token::{
    BlockModel, BlockToken, Bracket, BracketRole, CommentMark, NodeModel, Quote, RawToken,
    RawTokenData, Sep, SepModel, TokenModel, TokenNode, boxed, lemma_nodes_model_push,
    node_model, nodes_model, opt_model, token_text, tokens_model,
};
use crate::tokenizer::{blank_end, is_symbol, lemma_scan_advances, scan, tokens_from, word_end};
use vstd::prelude::*;

verus! {

/// A token sequence with offsets, as the parser sees it.
pub type Toks = Seq<(usize, TokenModel)>;

/// How many tokens are left from index `i`.
pub open spec fn rem(len: int, i: int) -> nat {
    if i < len {
        (len - i) as nat
    } else {
        0
    }
}

/// A node at offset `p`.
pub open spec fn node(p: usize, b: BlockModel) -> NodeModel {
    NodeModel { start: p, token: b }
}

/// Whether a text scan stops at `t`: at the end of the stream or at one of `stops`.
pub open spec fn stops_at(stops: Seq<TokenModel>, t: TokenModel) -> bool {
    t is Eos || stops.contains(t)
}

/// Where a text scan from `i` stops.
pub open spec fn seek_end(ts: Toks, i: int, stops: Seq<TokenModel>) -> int
    decreases rem(ts.len() as int, i),
{
    if i < 0 || i >= ts.len() || stops_at(stops, ts[i].1) {
        i
    } else {
        seek_end(ts, i + 1, stops)
    }
}

/// The text of the tokens that a scan from `i` passes over.
pub open spec fn seek_text(ts: Toks, i: int, stops: Seq<TokenModel>) -> Seq<char>
    decreases rem(ts.len() as int, i),
{
    if i < 0 || i >= ts.len() || stops_at(stops, ts[i].1) {
        seq![]
    } else {
        token_text(ts[i].1) + seek_text(ts, i + 1, stops)
    }
}

/// The tokens that end the content of a quoted string.
pub open spec fn quote_stops(q: Quote) -> Seq<TokenModel> {
    seq![TokenModel::Quote(q), TokenModel::Sep(SepModel::NewLine)]
}

/// The run of words and whitespace from `i` that a plain string takes in:
/// its text, where it ends, and whether a colon ended it as a key. With `key`
/// unset a colon is part of the text.
pub open spec fn simple_run(ts: Toks, key: bool, i: int) -> (Seq<char>, int, bool)
    decreases rem(ts.len() as int, i),
{
    if i < 0 || i >= ts.len() {
        (seq![], i, false)
    } else {
        match ts[i].1 {
            TokenModel::SimpleString(w) => {
                let r = simple_run(ts, key, i + 1);
                (w + r.0, r.1, r.2)
            },
            TokenModel::Sep(SepModel::WhiteSpaces(w)) => {
                let r = simple_run(ts, key, i + 1);
                (w + r.0, r.1, r.2)
            },
            TokenModel::Sep(sep) => {
                if key {
                    (seq![], i + 1, sep is Colon)
                } else if sep is Colon {
                    let r = simple_run(ts, key, i + 1);
                    (seq![':'] + r.0, r.1, r.2)
                } else {
                    (seq![], i + 1, false)
                }
            },
            _ => (seq![], i, false),
        }
    }
}

/// The node that parsing from token `i` yields, and where it stops; `key`
/// says whether a plain string followed by a colon opens a key/value node.
/// Past the last token there is no node, and the cursor still moves one
/// place on.
pub open spec fn parse_node(ts: Toks, key: bool, i: int) -> (Option<NodeModel>, int)
    decreases rem(ts.len() as int, i), 0nat,
{
    if i < 0 || i >= ts.len() {
        (None, i + 1)
    } else {
        let p = ts[i].0;
        match ts[i].1 {
            TokenModel::Eos => (None, i + 1),
            TokenModel::Quote(q) => {
                let r = parse_quoted(ts, p, q, i + 1);
                (Some(r.0), r.1)
            },
            TokenModel::SimpleString(s) => {
                let r = parse_simple(ts, p, s, key, i + 1);
                (Some(r.0), r.1)
            },
            TokenModel::Comment(m) => {
                let r = parse_comment(ts, p, m, i + 1);
                (Some(r.0), r.1)
            },
            TokenModel::Sep(_) => parse_node(ts, key, i + 1),
            TokenModel::Bracket(b) => parse_bracket(ts, p, b, i + 1),
        }
    }
}

/// The value of a key at offset `p`, parsed from token `i`; a comment right
/// after the colon is passed over.
pub open spec fn parse_key_value(ts: Toks, p: usize, key: Seq<char>, i: int) -> (NodeModel, int)
    decreases rem(ts.len() as int, i), 1nat,
{
    let (v, k) = parse_node(ts, false, i);
    let (w, k2) = if v is Some && v->0.token is Comment && k >= i {
        parse_node(ts, false, k)
    } else {
        (v, k)
    };
    (node(p, BlockModel::KeyValue(key, boxed(w))), k2)
}

/// A plain string that began with `s` at offset `p`, continued from token `i`.
pub open spec fn parse_simple(ts: Toks, p: usize, s: Seq<char>, key: bool, i: int) -> (
    NodeModel,
    int,
)
    decreases rem(ts.len() as int, i), 2nat,
{
    let (more, k, colon) = simple_run(ts, key, i);
    if colon && k >= i {
        parse_key_value(ts, p, s + more, k)
    } else {
        (node(p, BlockModel::UnquotedString(s + more)), k)
    }
}

/// A quoted string whose opening quote `q` was at offset `p`, continued from
/// token `i`; a colon after it makes it a key.
pub open spec fn parse_quoted(ts: Toks, p: usize, q: Quote, i: int) -> (NodeModel, int)
    decreases rem(ts.len() as int, i), 2nat,
{
    let content = seek_text(ts, i, quote_stops(q));
    let k = seek_end(ts, i, quote_stops(q));
    let k1 = if 0 <= k < ts.len() && ts[k].1 == TokenModel::Quote(q) {
        k + 1
    } else {
        k
    };
    if 0 <= k1 < ts.len() && ts[k1].1 == TokenModel::Sep(SepModel::NewLine) {
        (node(p, BlockModel::QuotedString(q, content)), k1 + 1)
    } else if 0 <= k1 < ts.len() && ts[k1].1 == TokenModel::Sep(SepModel::Colon) && k1 >= i {
        parse_key_value(ts, p, content, k1 + 1)
    } else {
        (node(p, BlockModel::QuotedString(q, content)), k1)
    }
}

/// A comment that began with `m` at offset `p`, continued from token `i`. A
/// stray block end stands for the plain text `*/`.
pub open spec fn parse_comment(ts: Toks, p: usize, m: CommentMark, i: int) -> (NodeModel, int)
    decreases rem(ts.len() as int, i), 3nat,
{
    match m {
        CommentMark::LineBegin => {
            let stops = seq![TokenModel::Sep(SepModel::NewLine)];
            (node(p, BlockModel::Comment(seek_text(ts, i, stops))), seek_end(ts, i, stops))
        },
        CommentMark::BlockBegin => {
            let stops = seq![TokenModel::Comment(CommentMark::BlockEnd)];
            (node(p, BlockModel::Comment(seek_text(ts, i, stops))), seek_end(ts, i, stops))
        },
        CommentMark::BlockEnd => parse_simple(ts, p, seq!['*', '/'], true, i),
    }
}

/// The elements of an array from token `i` on, and where the array ends: at
/// a closing bracket of any kind, which is taken, or before the end of the
/// stream.
pub open spec fn array_items(ts: Toks, i: int) -> (Seq<NodeModel>, int)
    decreases rem(ts.len() as int, i), 4nat,
{
    if i < 0 || i >= ts.len() {
        (seq![], i)
    } else {
        match ts[i].1 {
            TokenModel::Bracket(b) => {
                if b.role == BracketRole::End {
                    (seq![], i + 1)
                } else {
                    let (n, k) = parse_bracket(ts, ts[i].0, b, i + 1);
                    match n {
                        Some(v) => if k > i {
                            let (rest, m) = array_items(ts, k);
                            (seq![v] + rest, m)
                        } else {
                            (seq![v], k)
                        },
                        None => (seq![], k),
                    }
                }
            },
            TokenModel::Eos => (seq![], i),
            _ => {
                let (n, k) = parse_node(ts, true, i);
                match n {
                    Some(v) => if k > i {
                        let (rest, m) = array_items(ts, k);
                        (seq![v] + rest, m)
                    } else {
                        (seq![v], k)
                    },
                    None => (seq![], k),
                }
            },
        }
    }
}

/// What a bracket `b` at offset `p` opens, continued from token `i`: an
/// opening bracket starts an array; a stray closing one is passed over.
pub open spec fn parse_bracket(ts: Toks, p: usize, b: Bracket, i: int) -> (Option<NodeModel>, int)
    decreases rem(ts.len() as int, i), 5nat,
{
    if b.role == BracketRole::End {
        parse_node(ts, true, i)
    } else {
        let (items, k) = array_items(ts, i);
        (Some(node(p, BlockModel::Array(items))), k)
    }
}

/// Whether two tokens are the same.
pub fn same_token(a: &RawToken, b: &RawToken) -> (r: bool)
    ensures
        r == (a@ == b@),
{
    match (a, b) {
        (RawToken::Quote(x), RawToken::Quote(y)) => *x == *y,
        (RawToken::SimpleString(x), RawToken::SimpleString(y)) => x.eq(y),
        (RawToken::Sep(x), RawToken::Sep(y)) => match (x, y) {
            (Sep::Comma, Sep::Comma) => true,
            (Sep::Colon, Sep::Colon) => true,
            (Sep::WhiteSpaces(v), Sep::WhiteSpaces(w)) => v.eq(w),
            (Sep::NewLine, Sep::NewLine) => true,
            _ => false,
        },
        (RawToken::Bracket(x), RawToken::Bracket(y)) => *x == *y,
        (RawToken::Comment(x), RawToken::Comment(y)) => *x == *y,
        (RawToken::Eos, RawToken::Eos) => true,
        _ => false,
    }
}

/// Models of a list of tokens.
pub open spec fn token_models(v: Seq<RawToken>) -> Seq<TokenModel> {
    v.map_values(|t: RawToken| t@)
}

/// The parser over a token sequence, with a cursor into it.
pub struct IngotMatterTokenParser {
    pub raw_tokens: Vec<RawTokenData>,
    pub pos: usize,
}

impl IngotMatterTokenParser {
    /// The larger of the cursor and the number of tokens: parsing moves the
    /// cursor at most one place past it.
    pub open spec fn reach(&self) -> int {
        if self.pos > self.raw_tokens.len() {
            self.pos as int
        } else {
            self.raw_tokens.len() as int
        }
    }

    /// The tokens, as the parser's contracts speak of them.
    pub open spec fn toks(&self) -> Toks {
        tokens_model(self.raw_tokens@)
    }

    pub fn new(raw_tokens: Vec<RawTokenData>) -> (r: IngotMatterTokenParser)
        ensures
            r.raw_tokens == raw_tokens,
            r.pos == 0,
    {
        IngotMatterTokenParser { raw_tokens, pos: 0 }
    }

    /// The token at the cursor.
    pub fn peek_next_token(&self) -> (r: Option<&RawTokenData>)
        ensures
            r == if self.pos < self.raw_tokens.len() {
                Some(&self.raw_tokens@[self.pos as int])
            } else {
                None
            },
    {
        if self.pos < self.raw_tokens.len() {
            Some(&self.raw_tokens[self.pos])
        } else {
            None
        }
    }

    /// A copy of the token at the cursor, if there is one; the cursor moves
    /// one place on either way.
    pub fn next_token(&mut self) -> (r: Option<RawTokenData>)
        requires
            old(self).pos < usize::MAX,
        ensures
            final(self).raw_tokens == old(self).raw_tokens,
            final(self).pos == old(self).pos + 1,
            old(self).pos < old(self).raw_tokens.len() ==> {
                &&& r is Some
                &&& (r->0).0 == old(self).toks()[old(self).pos as int].0
                &&& (r->0).1@ == old(self).toks()[old(self).pos as int].1
            },
            old(self).pos >= old(self).raw_tokens.len() ==> r is None,
    {
        let r = if self.pos < self.raw_tokens.len() {
            let t = &self.raw_tokens[self.pos];
            Some((t.0, t.1.duplicate()))
        } else {
            None
        };
        self.pos = self.pos + 1;
        r
    }

    /// Moves the cursor one token on.
    pub fn pos_next(&mut self)
        requires
            old(self).pos < usize::MAX,
        ensures
            final(self).raw_tokens == old(self).raw_tokens,
            final(self).pos == old(self).pos + 1,
    {
        self.pos = self.pos + 1;
    }

    /// Moves the cursor one token back.
    pub fn pos_back(&mut self)
        requires
            old(self).pos > 0,
        ensures
            final(self).raw_tokens == old(self).raw_tokens,
            final(self).pos == old(self).pos - 1,
    {
        self.pos = self.pos - 1;
    }

    /// The text of the tokens from the cursor up to one of `stop_tokens` or
    /// the end of the stream; the cursor stops there.
    pub fn seek_and_get_string_until(&mut self, stop_tokens: Vec<RawToken>) -> (r: String)
        ensures
            final(self).raw_tokens == old(self).raw_tokens,
            r@ == seek_text(old(self).toks(), old(self).pos as int, token_models(stop_tokens@)),
            final(self).pos == seek_end(
                old(self).toks(),
                old(self).pos as int,
                token_models(stop_tokens@),
            ),
            final(self).pos <= old(self).reach(),
    {
        let ghost ts = self.toks();
        let ghost start = self.pos as int;
        let ghost stops = token_models(stop_tokens@);
        let mut result = String::new();
        while self.pos < self.raw_tokens.len()
            invariant_except_break
                self.toks() == ts,
                self.raw_tokens == old(self).raw_tokens,
                self.pos <= old(self).reach(),
                stops == token_models(stop_tokens@),
                seek_text(ts, start, stops) == result@ + seek_text(ts, self.pos as int, stops),
                seek_end(ts, start, stops) == seek_end(ts, self.pos as int, stops),
            ensures
                self.toks() == ts,
                self.raw_tokens == old(self).raw_tokens,
                self.pos <= old(self).reach(),
                seek_text(ts, start, stops) == result@,
                seek_end(ts, start, stops) == self.pos,
            decreases self.raw_tokens.len() - self.pos,
        {
            let i = self.pos;
            let token = &self.raw_tokens[i].1;
            let mut stop = match token {
                RawToken::Eos => true,
                _ => false,
            };
            let mut k: usize = 0;
            while k < stop_tokens.len() && !stop
                invariant
                    k <= stop_tokens.len(),
                    stop == (token@ is Eos || exists|j: int|
                        0 <= j < k && stops[j] == token@),
                    stops == token_models(stop_tokens@),
                decreases stop_tokens.len() - k,
            {
                stop = same_token(&stop_tokens[k], token);
                proof {
                    assert(stops[k as int] == stop_tokens@[k as int]@);
                }
                k = k + 1;
            }
            proof {
                assert(token@ == ts[i as int].1);
                if stops.contains(token@) && !stop {
                    let j = choose|j: int| 0 <= j < stops.len() && stops[j] == token@;
                    assert(j < k);
                }
            }
            if stop {
                proof {
                    assert(seek_text(ts, i as int, stops) =~= Seq::<char>::empty());
                    assert(result@ + Seq::<char>::empty() =~= result@);
                }
                break;
            }
            let s = token.get_as_string();
            let ghost before = result@;
            result.append(s.as_str());
            proof {
                assert(seek_text(ts, i as int, stops) == token_text(ts[i as int].1) + seek_text(
                    ts,
                    i + 1,
                    stops,
                ));
                assert(before + seek_text(ts, i as int, stops) =~= result@ + seek_text(
                    ts,
                    i + 1,
                    stops,
                ));
            }
            self.pos = i + 1;
        }
        proof {
            if self.pos >= self.raw_tokens.len() {
                assert(seek_text(ts, self.pos as int, stops) =~= Seq::<char>::empty());
                assert(result@ + Seq::<char>::empty() =~= result@);
            }
        }
        result
    }

    /// A quoted string whose opening quote was at offset `pos`.
    pub fn parse_quoted_block(&mut self, pos: usize, quote: Quote) -> (r: TokenNode)
        requires
            old(self).pos < usize::MAX,
            old(self).raw_tokens.len() < usize::MAX,
        ensures
            final(self).raw_tokens == old(self).raw_tokens,
            (r@, final(self).pos as int) == parse_quoted(
                old(self).toks(),
                pos,
                quote,
                old(self).pos as int,
            ),
            old(self).pos <= final(self).pos,
            final(self).pos <= old(self).reach() + 1,
            r.token is Comment ==> final(self).pos <= old(self).reach(),
        decreases rem(self.raw_tokens.len() as int, self.pos as int), 2nat,
    {
        let ghost ts = self.toks();
        let ghost i = self.pos as int;
        let mut stops: Vec<RawToken> = Vec::new();
        stops.push(RawToken::Quote(quote));
        stops.push(RawToken::Sep(Sep::NewLine));
        proof {
            assert(token_models(stops@) =~= quote_stops(quote));
            lemma_seek_end_bounds(ts, i, quote_stops(quote));
        }
        let content = self.seek_and_get_string_until(stops);
        let n = self.raw_tokens.len();
        if self.pos < n {
            let is_same_quote = match &self.raw_tokens[self.pos].1 {
                RawToken::Quote(q) => *q == quote,
                _ => false,
            };
            if is_same_quote {
                self.pos = self.pos + 1;
            }
        }
        if self.pos < n {
            let k1 = self.pos;
            let (is_new_line, is_colon) = match &self.raw_tokens[k1].1 {
                RawToken::Sep(Sep::NewLine) => (true, false),
                RawToken::Sep(Sep::Colon) => (false, true),
                _ => (false, false),
            };
            if is_new_line {
                self.pos = k1 + 1;
            } else if is_colon {
                self.pos = k1 + 1;
                return self.parse_key_value(pos, content);
            }
        }
        TokenNode::new(pos, BlockToken::QuotedString(quote, content))
    }

    /// The key/value node for `key` at offset `pos`; its value is the next
    /// node, past one comment.
    fn parse_key_value(&mut self, pos: usize, key: String) -> (r: TokenNode)
        requires
            old(self).pos < usize::MAX,
            old(self).raw_tokens.len() < usize::MAX,
        ensures
            final(self).raw_tokens == old(self).raw_tokens,
            (r@, final(self).pos as int) == parse_key_value(
                old(self).toks(),
                pos,
                key@,
                old(self).pos as int,
            ),
            old(self).pos <= final(self).pos,
            final(self).pos <= old(self).reach() + 1,
            r.token is Comment ==> final(self).pos <= old(self).reach(),
        decreases rem(self.raw_tokens.len() as int, self.pos as int), 1nat,
    {
        let mut value = self.parse_token_node(false);
        let is_comment = match &value {
            Some(v) => match &v.token {
                BlockToken::Comment(_) => true,
                _ => false,
            },
            None => false,
        };
        if is_comment {
            value = self.parse_token_node(false);
        }
        TokenNode::new(pos, BlockToken::KeyValue(key, Box::new(value)))
    }

    /// A plain string that began with `s` at offset `pos`; with `sep_colon`
    /// set, a colon after it makes it a key.
    pub fn parse_simple_string(&mut self, pos: usize, s: String, sep_colon: bool) -> (r:
        TokenNode)
        requires
            old(self).pos < usize::MAX,
            old(self).raw_tokens.len() < usize::MAX,
        ensures
            final(self).raw_tokens == old(self).raw_tokens,
            (r@, final(self).pos as int) == parse_simple(
                old(self).toks(),
                pos,
                s@,
                sep_colon,
                old(self).pos as int,
            ),
            old(self).pos <= final(self).pos,
            final(self).pos <= old(self).reach() + 1,
            r.token is Comment ==> final(self).pos <= old(self).reach(),
        decreases rem(self.raw_tokens.len() as int, self.pos as int), 2nat,
    {
        let ghost ts = self.toks();
        let ghost start = self.pos as int;
        let ghost init = s@;
        let mut content = s;
        let mut next_colon = false;
        loop
            invariant_except_break
                self.toks() == ts,
                self.raw_tokens == old(self).raw_tokens,
                start <= self.pos,
                self.pos <= old(self).reach(),
                !next_colon,
                init + simple_run(ts, sep_colon, start).0 == content@ + simple_run(
                    ts,
                    sep_colon,
                    self.pos as int,
                ).0,
                simple_run(ts, sep_colon, start).1 == simple_run(ts, sep_colon, self.pos as int).1,
                simple_run(ts, sep_colon, start).2 == simple_run(ts, sep_colon, self.pos as int).2,
            ensures
                self.toks() == ts,
                self.raw_tokens == old(self).raw_tokens,
                start <= self.pos,
                self.pos <= old(self).reach(),
                init + simple_run(ts, sep_colon, start).0 == content@,
                simple_run(ts, sep_colon, start).1 == self.pos,
                simple_run(ts, sep_colon, start).2 == next_colon,
            decreases self.raw_tokens.len() - self.pos,
        {
            let i = self.pos;
            if i >= self.raw_tokens.len() {
                proof {
                    assert(content@ + Seq::<char>::empty() =~= content@);
                }
                break;
            }
            let ghost before = content@;
            let ghost t = ts[i as int].1;
            match &self.raw_tokens[i].1 {
                RawToken::SimpleString(w) => {
                    content.append(w.as_str());
                    self.pos = i + 1;
                    proof {
                        assert(before + (w@ + simple_run(ts, sep_colon, i + 1).0) =~= content@
                            + simple_run(ts, sep_colon, i + 1).0);
                    }
                },
                RawToken::Sep(Sep::WhiteSpaces(w)) => {
                    content.append(w.as_str());
                    self.pos = i + 1;
                    proof {
                        assert(before + (w@ + simple_run(ts, sep_colon, i + 1).0) =~= content@
                            + simple_run(ts, sep_colon, i + 1).0);
                    }
                },
                RawToken::Sep(sep) => {
                    let is_colon = match sep {
                        Sep::Colon => true,
                        _ => false,
                    };
                    if sep_colon {
                        next_colon = is_colon;
                        self.pos = i + 1;
                        proof {
                            assert(content@ + Seq::<char>::empty() =~= content@);
                        }
                        break;
                    }
                    if is_colon {
                        crate::text::push_char(&mut content, ':');
                        self.pos = i + 1;
                        proof {
                            assert(before + (seq![':'] + simple_run(ts, sep_colon, i + 1).0)
                                =~= content@ + simple_run(ts, sep_colon, i + 1).0);
                        }
                    } else {
                        self.pos = i + 1;
                        proof {
                            assert(content@ + Seq::<char>::empty() =~= content@);
                        }
                        break;
                    }
                },
                _ => {
                    proof {
                        assert(content@ + Seq::<char>::empty() =~= content@);
                    }
                    break;
                },
            }
        }
        if next_colon {
            self.parse_key_value(pos, content)
        } else {
            TokenNode::new(pos, BlockToken::UnquotedString(content))
        }
    }

    /// A comment that began with `mark` at offset `pos`.
    pub fn parse_comment_part(&mut self, pos: usize, mark: CommentMark) -> (r: TokenNode)
        requires
            old(self).pos < usize::MAX,
            old(self).raw_tokens.len() < usize::MAX,
        ensures
            final(self).raw_tokens == old(self).raw_tokens,
            (r@, final(self).pos as int) == parse_comment(
                old(self).toks(),
                pos,
                mark,
                old(self).pos as int,
            ),
            old(self).pos <= final(self).pos,
            final(self).pos <= old(self).reach() + 1,
            r.token is Comment ==> final(self).pos <= old(self).reach(),
        decreases rem(self.raw_tokens.len() as int, self.pos as int), 3nat,
    {
        let ghost ts = self.toks();
        let ghost i = self.pos as int;
        match mark {
            CommentMark::LineBegin => {
                let mut stops: Vec<RawToken> = Vec::new();
                stops.push(RawToken::Sep(Sep::NewLine));
                proof {
                    assert(token_models(stops@) =~= seq![TokenModel::Sep(SepModel::NewLine)]);
                    lemma_seek_end_bounds(ts, i, token_models(stops@));
                }
                let comment = self.seek_and_get_string_until(stops);
                TokenNode::new(pos, BlockToken::Comment(comment))
            },
            CommentMark::BlockBegin => {
                let mut stops: Vec<RawToken> = Vec::new();
                stops.push(RawToken::Comment(CommentMark::BlockEnd));
                proof {
                    assert(token_models(stops@) =~= seq![
                        TokenModel::Comment(CommentMark::BlockEnd),
                    ]);
                    lemma_seek_end_bounds(ts, i, token_models(stops@));
                }
                let comment = self.seek_and_get_string_until(stops);
                TokenNode::new(pos, BlockToken::Comment(comment))
            },
            CommentMark::BlockEnd => {
                let mut s = String::new();
                crate::text::push_char(&mut s, '*');
                crate::text::push_char(&mut s, '/');
                proof {
                    assert(s@ =~= seq!['*', '/']);
                }
                self.parse_simple_string(pos, s, true)
            },
        }
    }

    /// A separator carries no node: the node after it is parsed instead.
    pub fn parse_sep(&mut self, _pos: usize, _sep: Sep, able_key_token: bool) -> (r: Option<
        TokenNode,
    >)
        requires
            old(self).pos < usize::MAX,
            old(self).raw_tokens.len() < usize::MAX,
        ensures
            final(self).raw_tokens == old(self).raw_tokens,
            (opt_model(r), final(self).pos as int) == parse_node(
                old(self).toks(),
                able_key_token,
                old(self).pos as int,
            ),
            old(self).pos <= final(self).pos,
            final(self).pos <= old(self).reach() + 1,
            r matches Some(n) && n.token is Comment ==> final(self).pos <= old(self).reach(),
            r is Some ==> old(self).pos < final(self).pos,
        decreases rem(self.raw_tokens.len() as int, self.pos as int), 1nat,
    {
        self.parse_token_node(able_key_token)
    }

    /// What the bracket `bracket` at offset `pos` opens: an array, closed by
    /// the next closing bracket of any kind; a stray closing bracket is passed
    /// over.
    pub fn parse_bracket(&mut self, pos: usize, bracket: Bracket) -> (r: Option<TokenNode>)
        requires
            old(self).pos < usize::MAX,
            old(self).raw_tokens.len() < usize::MAX,
        ensures
            final(self).raw_tokens == old(self).raw_tokens,
            (opt_model(r), final(self).pos as int) == parse_bracket(
                old(self).toks(),
                pos,
                bracket,
                old(self).pos as int,
            ),
            old(self).pos <= final(self).pos,
            final(self).pos <= old(self).reach() + 1,
            r matches Some(n) && n.token is Comment ==> final(self).pos <= old(self).reach(),
            bracket.role == BracketRole::Start ==> r is Some,
            bracket.role == BracketRole::End && r is Some ==> old(self).pos < final(self).pos,
        decreases rem(self.raw_tokens.len() as int, self.pos as int), 5nat,
    {
        if bracket.role == BracketRole::End {
            return self.next_token_node();
        }
        let ghost ts = self.toks();
        let ghost start = self.pos as int;
        let mut content: Vec<TokenNode> = Vec::new();
        loop
            invariant_except_break
                self.toks() == ts,
                self.raw_tokens == old(self).raw_tokens,
                start == old(self).pos,
                start <= self.pos,
                self.pos <= old(self).reach() + 1,
                self.raw_tokens.len() < usize::MAX,
                array_items(ts, start) == (
                    nodes_model(content@) + array_items(ts, self.pos as int).0,
                    array_items(ts, self.pos as int).1,
                ),
            ensures
                self.toks() == ts,
                self.raw_tokens == old(self).raw_tokens,
                start <= self.pos,
                self.pos <= old(self).reach() + 1,
                array_items(ts, start) == (nodes_model(content@), self.pos as int),
            decreases rem(self.raw_tokens.len() as int, self.pos as int),
        {
            let i = self.pos;
            if i >= self.raw_tokens.len() {
                proof {
                    assert(nodes_model(content@) + Seq::<NodeModel>::empty() =~= nodes_model(
                        content@,
                    ));
                }
                break;
            }
            let ghost before = content@;
            let inner_at = self.raw_tokens[i].0;
            let (inner, is_eos) = match &self.raw_tokens[i].1 {
                RawToken::Bracket(b) => (Some(*b), false),
                RawToken::Eos => (None, true),
                _ => (None, false),
            };
            match inner {
                Some(b2) => {
                    self.pos = i + 1;
                    if b2.role == BracketRole::End {
                        proof {
                            assert(nodes_model(content@) + Seq::<NodeModel>::empty()
                                =~= nodes_model(content@));
                        }
                        break;
                    }
                    let nested = self.parse_bracket(inner_at, b2);
                    match nested {
                        Some(v) => {
                            content.push(v);
                            proof {
                                lemma_nodes_model_push(before, v);
                                assert(nodes_model(before) + (seq![node_model(v)] + array_items(
                                    ts,
                                    self.pos as int,
                                ).0) =~= nodes_model(content@) + array_items(
                                    ts,
                                    self.pos as int,
                                ).0);
                            }
                        },
                        None => {
                            break;
                        },
                    }
                },
                None => {
                    if is_eos {
                        proof {
                            assert(nodes_model(content@) + Seq::<NodeModel>::empty()
                                =~= nodes_model(content@));
                        }
                        break;
                    }
                    let node = self.next_token_node();
                    match node {
                        Some(v) => {
                            content.push(v);
                            proof {
                                lemma_nodes_model_push(before, v);
                                assert(nodes_model(before) + (seq![node_model(v)] + array_items(
                                    ts,
                                    self.pos as int,
                                ).0) =~= nodes_model(content@) + array_items(
                                    ts,
                                    self.pos as int,
                                ).0);
                            }
                        },
                        None => {
                            proof {
                                assert(nodes_model(content@) + Seq::<NodeModel>::empty()
                                    =~= nodes_model(content@));
                            }
                            break;
                        },
                    }
                },
            }
        }
        Some(TokenNode::new(pos, BlockToken::Array(content)))
    }

    /// The next node from the cursor; `able_key_token` says whether a plain
    /// string followed by a colon opens a key/value node.
    fn parse_token_node(&mut self, able_key_token: bool) -> (r: Option<TokenNode>)
        requires
            old(self).pos < usize::MAX,
            old(self).raw_tokens.len() < usize::MAX,
        ensures
            final(self).raw_tokens == old(self).raw_tokens,
            (opt_model(r), final(self).pos as int) == parse_node(
                old(self).toks(),
                able_key_token,
                old(self).pos as int,
            ),
            old(self).pos <= final(self).pos,
            final(self).pos <= old(self).reach() + 1,
            r matches Some(n) && n.token is Comment ==> final(self).pos <= old(self).reach(),
            r is Some ==> old(self).pos < final(self).pos,
        decreases rem(self.raw_tokens.len() as int, self.pos as int), 0nat,
    {
        match self.next_token() {
            Some((pos, token)) => match token {
                RawToken::Eos => None,
                RawToken::Quote(q) => Some(self.parse_quoted_block(pos, q)),
                RawToken::SimpleString(s) => Some(
                    self.parse_simple_string(pos, s, able_key_token),
                ),
                RawToken::Comment(mark) => Some(self.parse_comment_part(pos, mark)),
                RawToken::Sep(sep) => self.parse_sep(pos, sep, able_key_token),
                RawToken::Bracket(bracket) => self.parse_bracket(pos, bracket),
            },
            None => None,
        }
    }

    /// The next node of the stream, where a plain string followed by a colon
    /// opens a key/value node; `None` once the tokens are used up.
    pub fn next_token_node(&mut self) -> (r: Option<TokenNode>)
        requires
            old(self).pos < usize::MAX,
            old(self).raw_tokens.len() < usize::MAX,
        ensures
            final(self).raw_tokens == old(self).raw_tokens,
            (opt_model(r), final(self).pos as int) == parse_node(
                old(self).toks(),
                true,
                old(self).pos as int,
            ),
            old(self).pos <= final(self).pos,
            final(self).pos <= old(self).reach() + 1,
            r matches Some(n) && n.token is Comment ==> final(self).pos <= old(self).reach(),
            r is Some ==> old(self).pos < final(self).pos,
        decreases rem(self.raw_tokens.len() as int, self.pos as int), 1nat,
    {
        self.parse_token_node(true)
    }
}

/// A text scan never moves back, nor past the end.
proof fn lemma_seek_end_bounds(ts: Toks, i: int, stops: Seq<TokenModel>)
    requires
        0 <= i,
    ensures
        i <= seek_end(ts, i, stops),
        i <= ts.len() ==> seek_end(ts, i, stops) <= ts.len(),
    decreases rem(ts.len() as int, i),
{
    if i < ts.len() && !stops_at(stops, ts[i].1) {
        lemma_seek_end_bounds(ts, i + 1, stops);
    }
}

/// A character that stands in a plain word: no symbol, escape or asterisk.
pub open spec fn is_plain_char(c: char) -> bool {
    !is_symbol(c) && c != '\\' && c != '*'
}

/// A space or a tab.
pub open spec fn is_blank_char(c: char) -> bool {
    c == ' ' || c == '\t'
}

/// Plain text: words and blanks, beginning and ending with a word character.
pub open spec fn is_plain_text(s: Seq<char>) -> bool {
    &&& s.len() > 0
    &&& is_plain_char(s[0])
    &&& is_plain_char(s.last())
    &&& forall|x: int| 0 <= x < s.len() ==> is_plain_char(#[trigger] s[x]) || is_blank_char(s[x])
}

/// Whether `s[a..b]` holds only word characters and blanks, and ends at the
/// end of `s` or at a colon.
pub open spec fn plain_region(s: Seq<char>, a: int, b: int) -> bool {
    &&& 0 <= a <= b <= s.len()
    &&& forall|x: int| a <= x < b ==> is_plain_char(#[trigger] s[x]) || is_blank_char(s[x])
    &&& (b == s.len() || s[b] == ':')
}

proof fn lemma_word_end_region(s: Seq<char>, k: int, b: int)
    requires
        plain_region(s, k, b),
    ensures
        k <= word_end(s, k) <= b,
    decreases b - k,
{
    if k < b && is_plain_char(s[k]) {
        lemma_word_end_region(s, k + 1, b);
    }
}

proof fn lemma_blank_end_region(s: Seq<char>, k: int, b: int)
    requires
        plain_region(s, k, b),
    ensures
        k <= blank_end(s, k) <= b,
    decreases b - k,
{
    if k < b && is_blank_char(s[k]) {
        lemma_blank_end_region(s, k + 1, b);
    }
}

proof fn lemma_blank_end_exact(s: Seq<char>, k: int, d: int)
    requires
        0 <= k <= d <= s.len(),
        forall|x: int| k <= x < d ==> is_blank_char(#[trigger] s[x]),
        d == s.len() || !is_blank_char(s[d]),
    ensures
        blank_end(s, k) == d,
    decreases d - k,
{
    if k < d {
        lemma_blank_end_exact(s, k + 1, d);
    }
}

/// The first token of the text from offset `a`, and the tokens after it.
proof fn lemma_tokens_from_step(s: Seq<char>, a: int)
    requires
        0 <= a < s.len(),
    ensures
        tokens_from(s, a) == seq![(a as usize, scan(s, a).0)] + tokens_from(s, scan(s, a).1),
{
    lemma_scan_advances(s, a);
}

/// Where the tokens from offset `a` are the tokens from index `i` on, the
/// token at `i` is the one scanned at `a`.
proof fn lemma_suffix_step(s: Seq<char>, ts: Toks, i: int, a: int)
    requires
        0 <= a < s.len(),
        0 <= i <= ts.len(),
        ts.subrange(i, ts.len() as int) == tokens_from(s, a),
    ensures
        i < ts.len(),
        ts[i] == (a as usize, scan(s, a).0),
        ts.subrange(i + 1, ts.len() as int) == tokens_from(s, scan(s, a).1),
{
    lemma_tokens_from_step(s, a);
    let sub = ts.subrange(i, ts.len() as int);
    assert(sub.len() == tokens_from(s, a).len());
    assert(sub[0] == ts[i]);
    assert(ts.subrange(i + 1, ts.len() as int) =~= sub.drop_first());
    assert(sub.drop_first() =~= tokens_from(s, scan(s, a).1));
}

/// A word character begins a word token.
proof fn lemma_scan_plain(s: Seq<char>, a: int)
    requires
        0 <= a < s.len(),
        is_plain_char(s[a]),
    ensures
        scan(s, a) == (TokenModel::SimpleString(s.subrange(a, word_end(s, a + 1))), word_end(s, a + 1)),
{
}

/// A blank begins a whitespace token.
proof fn lemma_scan_blank(s: Seq<char>, a: int)
    requires
        0 <= a < s.len(),
        is_blank_char(s[a]),
    ensures
        scan(s, a) == (
            TokenModel::Sep(SepModel::WhiteSpaces(s.subrange(a, blank_end(s, a + 1)))),
            blank_end(s, a + 1),
        ),
{
}

/// A plain string scan over the tokens of a plain region takes in the
/// region's text.
proof fn lemma_plain_run(s: Seq<char>, ts: Toks, i: int, a: int, b: int, key: bool) -> (j: int)
    requires
        plain_region(s, a, b),
        0 <= i <= ts.len(),
        ts.subrange(i, ts.len() as int) == tokens_from(s, a),
    ensures
        i <= j <= ts.len(),
        ts.subrange(j, ts.len() as int) == tokens_from(s, b),
        simple_run(ts, key, i) == (
            s.subrange(a, b) + simple_run(ts, key, j).0,
            simple_run(ts, key, j).1,
            simple_run(ts, key, j).2,
        ),
    decreases b - a,
{
    if a == b {
        assert(s.subrange(a, b) + simple_run(ts, key, i).0 =~= simple_run(ts, key, i).0);
        i
    } else {
        lemma_suffix_step(s, ts, i, a);
        let e = scan(s, a).1;
        if is_blank_char(s[a]) {
            lemma_scan_blank(s, a);
            lemma_blank_end_region(s, a + 1, b);
        } else {
            lemma_scan_plain(s, a);
            lemma_word_end_region(s, a + 1, b);
        }
        let j = lemma_plain_run(s, ts, i + 1, e, b, key);
        assert(s.subrange(a, e) + (s.subrange(e, b) + simple_run(ts, key, j).0) =~= s.subrange(
            a,
            b,
        ) + simple_run(ts, key, j).0);
        j
    }
}

/// The key of a plain line: the text from offset `a`, where the tokens from
/// index `i` begin, up to the colon at `c`; the value is parsed from token
/// `j`, the one scanned after the colon.
proof fn lemma_key_part(s: Seq<char>, ts: Toks, i: int, a: int, c: int) -> (j: int)
    requires
        plain_region(s, a, c),
        a < c < s.len() <= usize::MAX,
        is_plain_char(s[a]),
        0 <= i <= ts.len(),
        ts.subrange(i, ts.len() as int) == tokens_from(s, a),
    ensures
        i < j <= ts.len(),
        ts.subrange(j, ts.len() as int) == tokens_from(s, c + 1),
        parse_node(ts, true, i) == ({
            let r = parse_key_value(ts, a as usize, s.subrange(a, c), j);
            (Some(r.0), r.1)
        }),
{
    lemma_suffix_step(s, ts, i, a);
    lemma_scan_plain(s, a);
    let e0 = scan(s, a).1;
    lemma_word_end_region(s, a + 1, c);
    let j = lemma_plain_run(s, ts, i + 1, e0, c, true);
    lemma_suffix_step(s, ts, j, c);
    assert(scan(s, c) == (TokenModel::Sep(SepModel::Colon), c + 1));
    assert(simple_run(ts, true, j) == (Seq::<char>::empty(), j + 1, true));
    assert(s.subrange(a, e0) + (s.subrange(e0, c) + Seq::<char>::empty()) =~= s.subrange(a, c));
    assert(simple_run(ts, true, i + 1) == (s.subrange(e0, c) + Seq::<char>::empty(), j + 1, true));
    assert(ts[i] == (a as usize, TokenModel::SimpleString(s.subrange(a, e0))));
    assert(parse_simple(ts, a as usize, s.subrange(a, e0), true, i + 1) == parse_key_value(
        ts,
        a as usize,
        s.subrange(a, c),
        j + 1,
    ));
    j + 1
}

/// The value of a plain line: the unquoted text from offset `d` to the end,
/// after the blanks from offset `a`.
proof fn lemma_value_part(s: Seq<char>, ts: Toks, i: int, a: int, d: int)
    requires
        0 <= a <= d < s.len() <= usize::MAX,
        forall|x: int| a <= x < d ==> is_blank_char(#[trigger] s[x]),
        is_plain_char(s[d]),
        plain_region(s, d, s.len() as int),
        0 <= i <= ts.len(),
        ts.subrange(i, ts.len() as int) == tokens_from(s, a),
    ensures
        parse_node(ts, false, i) == (
            Some(node(d as usize, BlockModel::UnquotedString(s.subrange(d, s.len() as int)))),
            ts.len() as int,
        ),
{
    let n = s.len() as int;
    let i1 = if a < d {
        lemma_suffix_step(s, ts, i, a);
        lemma_scan_blank(s, a);
        lemma_blank_end_exact(s, a + 1, d);
        assert(ts[i].1 is Sep);
        i + 1
    } else {
        i
    };
    assert(parse_node(ts, false, i) == parse_node(ts, false, i1));
    lemma_suffix_step(s, ts, i1, d);
    lemma_scan_plain(s, d);
    let e1 = scan(s, d).1;
    lemma_word_end_region(s, d + 1, n);
    let jend = lemma_plain_run(s, ts, i1 + 1, e1, n, false);
    assert(tokens_from(s, n).len() == 0);
    assert(jend == ts.len());
    assert(simple_run(ts, false, jend) == (Seq::<char>::empty(), jend, false));
    assert(s.subrange(d, e1) + (s.subrange(e1, n) + Seq::<char>::empty()) =~= s.subrange(d, n));
    assert(simple_run(ts, false, i1 + 1) == (s.subrange(e1, n) + Seq::<char>::empty(), jend, false));
    assert(ts[i1] == (d as usize, TokenModel::SimpleString(s.subrange(d, e1))));
    assert(parse_simple(ts, d as usize, s.subrange(d, e1), false, i1 + 1) == (
        node(d as usize, BlockModel::UnquotedString(s.subrange(d, n))),
        jend,
    ));
}

/// A plain `key: value` line parses to exactly one key/value node, whose key
/// is the text before the colon after the blanks that open the line, and
/// whose value is the unquoted text after the blanks that follow the colon.
pub proof fn lemma_key_value_line(w0: Seq<char>, k: Seq<char>, w: Seq<char>, v: Seq<char>)
    requires
        forall|x: int| 0 <= x < w0.len() ==> is_blank_char(#[trigger] w0[x]),
        is_plain_text(k),
        forall|x: int| 0 <= x < w.len() ==> is_blank_char(#[trigger] w[x]),
        is_plain_text(v),
        w0.len() + k.len() + 1 + w.len() + v.len() <= usize::MAX,
    ensures
        ({
            let s = w0 + k + seq![':'] + w + v;
            let ts = tokens_from(s, 0);
            let d = (w0.len() + k.len() + 1 + w.len()) as usize;
            &&& parse_node(ts, true, 0) == (
                Some(
                    node(
                        w0.len() as usize,
                        BlockModel::KeyValue(
                            k,
                            boxed(Some(node(d, BlockModel::UnquotedString(v)))),
                        ),
                    ),
                ),
                ts.len() as int,
            )
            &&& parse_node(ts, true, ts.len() as int).0 is None
        }),
{
    let s = w0 + k + seq![':'] + w + v;
    let ts = tokens_from(s, 0);
    let a = w0.len() as int;
    let c = a + k.len();
    let d = c + 1 + w.len();
    let n = s.len() as int;
    assert forall|x: int| 0 <= x < a implies s[x] == w0[x] by {}
    assert forall|x: int| a <= x < c implies s[x] == k[x - a] by {}
    assert(s[c] == ':');
    assert forall|x: int| c + 1 <= x < d implies s[x] == w[x - c - 1] by {}
    assert forall|x: int| d <= x < n implies s[x] == v[x - d] by {}
    assert(s.subrange(a, c) =~= k);
    assert(s.subrange(d, n) =~= v);
    assert(plain_region(s, a, c)) by {
        assert forall|x: int| a <= x < c implies is_plain_char(#[trigger] s[x]) || is_blank_char(
            s[x],
        ) by {
            assert(s[x] == k[x - a]);
        }
    }
    assert(plain_region(s, d, n)) by {
        assert forall|x: int| d <= x < n implies is_plain_char(#[trigger] s[x]) || is_blank_char(
            s[x],
        ) by {
            assert(s[x] == v[x - d]);
        }
    }
    assert forall|x: int| c + 1 <= x < d implies is_blank_char(#[trigger] s[x]) by {
        assert(s[x] == w[x - c - 1]);
    }
    assert(ts.subrange(0, ts.len() as int) =~= ts);
    let i0 = if a > 0 {
        assert forall|x: int| 0 <= x < a implies is_blank_char(#[trigger] s[x]) by {
            assert(s[x] == w0[x]);
        }
        lemma_suffix_step(s, ts, 0, 0);
        lemma_scan_blank(s, 0);
        lemma_blank_end_exact(s, 1, a);
        assert(ts[0].1 is Sep);
        1int
    } else {
        0int
    };
    assert(parse_node(ts, true, 0) == parse_node(ts, true, i0));
    let j = lemma_key_part(s, ts, i0, a, c);
    lemma_value_part(s, ts, j, c + 1, d);
}

} // verus!
