//! Splitting a document into front matter, body and back matter, and
//! building the document record from them.
pub use crate::ingot::IngotParser;
use crate::ingot::{Ingot, IngotModel, ParseError, apply_key_value, zero_record};
use crate::parser::{IngotMatterTokenParser, Toks, parse_node, rem};
use crate::text::{chars_of, is_white, is_whitespace, string_from_range};
use crate::token::{
    BlockModel, BlockToken, NodeModel, RawToken, RawTokenData, Sep, SepModel, TokenModel,
    node_model, opt_model, tokens_model,
};
use crate::tokenizer::{IngotTokenizer, lemma_scan_advances, scan, tokenize, tokens_from};
use vstd::prelude::*;

verus! {

/// The front-matter run of `s` from offset `i`: the tokens up to the end of
/// the text or up to a second line break in a row, which ends the run
/// without being part of it; and the offset where the run ends.
pub open spec fn front_run(s: Seq<char>, i: int, prev_nl: bool) -> (Seq<(usize, TokenModel)>, int)
    decreases s.len() - i,
{
    if i < 0 || i >= s.len() {
        (seq![], i)
    } else {
        let (t, j) = scan(s, i);
        if j <= i || j > s.len() {
            (seq![], i)
        } else if t == TokenModel::Sep(SepModel::NewLine) {
            if prev_nl {
                (seq![], j)
            } else {
                let r = front_run(s, j, true);
                (seq![(i as usize, t)] + r.0, r.1)
            }
        } else {
            let r = front_run(s, j, false);
            (seq![(i as usize, t)] + r.0, r.1)
        }
    }
}

/// An optional boxed node model, unboxed.
pub open spec fn unbox(o: Option<Box<NodeModel>>) -> Option<NodeModel> {
    match o {
        Some(b) => Some(*b),
        None => None,
    }
}

/// The record after a node is folded into it: only key/value nodes count.
pub open spec fn apply_node(m: IngotModel, n: NodeModel) -> IngotModel {
    match n.token {
        BlockModel::KeyValue(k, v) => apply_key_value(m, k, unbox(v)),
        _ => m,
    }
}

/// The record after every node parsed from token `i` on is folded into it, in
/// order.
pub open spec fn collate_from(ts: Toks, i: int, m: IngotModel) -> IngotModel
    decreases rem(ts.len() as int, i),
{
    if i >= ts.len() {
        m
    } else {
        let (n, k) = parse_node(ts, true, i);
        match n {
            None => m,
            Some(node) => if k > i {
                collate_from(ts, k, apply_node(m, node))
            } else {
                m
            },
        }
    }
}

/// Scanning `s` backward from before offset `j`, with `count` line breaks
/// seen since the last visible character: the offset of the back-matter
/// boundary, the first blank line from the end, that is the line break met
/// after another one with only whitespace between them.
pub open spec fn back_split(s: Seq<char>, j: int, count: nat) -> Option<int>
    decreases j,
{
    if j <= 0 || j > s.len() {
        None
    } else {
        let pos = j - 1;
        let c = s[pos];
        if c == '\n' {
            let at = if pos > 0 && s[pos - 1] == '\r' {
                pos - 1
            } else {
                pos
            };
            if count > 0 {
                Some(at)
            } else {
                back_split(s, at, count + 1)
            }
        } else if c == '\r' {
            if count > 0 {
                Some(pos)
            } else {
                back_split(s, pos, count + 1)
            }
        } else if is_white(c) {
            back_split(s, pos, count)
        } else {
            back_split(s, pos, 0)
        }
    }
}

/// The body and the back matter of `s`.
pub open spec fn split_back(s: Seq<char>) -> (Seq<char>, Seq<char>) {
    match back_split(s, s.len() as int, 0) {
        Some(p) => (s.subrange(0, p), s.subrange(p, s.len() as int)),
        None => (s, seq![]),
    }
}

/// The first line break of `s` at or after `i`: its offset and its length
/// (`\r\n` counts as one break).
pub open spec fn next_break(s: Seq<char>, i: int) -> Option<(int, int)>
    decreases s.len() - i,
{
    if i < 0 || i >= s.len() {
        None
    } else if s[i] == '\n' {
        Some((i, 1))
    } else if s[i] == '\r' {
        Some((i, if i + 1 < s.len() && s[i + 1] == '\n' { 2 } else { 1 }))
    } else {
        next_break(s, i + 1)
    }
}

/// Whether `s` holds only whitespace.
pub open spec fn is_blank(s: Seq<char>) -> bool {
    forall|k: int| 0 <= k < s.len() ==> is_white(#[trigger] s[k])
}

/// The offset of the first line of `s` from `i` on that is not a blank line
/// ended by a line break.
pub open spec fn skip_blank_lines(s: Seq<char>, i: int) -> int
    decreases s.len() - i,
{
    match next_break(s, i) {
        Some((p, l)) => if 0 <= i <= p && p + l <= s.len() && l >= 1 && is_blank(
            s.subrange(i, p),
        ) {
            skip_blank_lines(s, p + l)
        } else {
            i
        },
        None => i,
    }
}

/// The title and the body that remain text `s` gives. Blank lines at the
/// start are passed over; the first other line is the title where the line
/// after it is blank or missing, and the body is what follows that line;
/// otherwise there is no title and the body is the text from that first line
/// on. Where no line but blank ones is left, the remainder is both.
pub open spec fn title_split(s: Seq<char>) -> (Option<Seq<char>>, Seq<char>) {
    let r0 = skip_blank_lines(s, 0);
    let r = s.subrange(r0, s.len() as int);
    match next_break(s, r0) {
        None => if is_blank(r) {
            (Some(r), r)
        } else {
            (Some(r), seq![])
        },
        Some((p, l)) => {
            let cand = s.subrange(r0, p);
            let q = p + l;
            match next_break(s, q) {
                Some((next_at, next_len)) => if is_blank(s.subrange(q, next_at)) {
                    (Some(cand), s.subrange(next_at + next_len, s.len() as int))
                } else {
                    (None, r)
                },
                None => if is_blank(s.subrange(q, s.len() as int)) {
                    (Some(cand), seq![])
                } else {
                    (None, r)
                },
            }
        },
    }
}

/// The record with the title and body that `s` gives.
pub open spec fn with_title(m: IngotModel, s: Seq<char>) -> IngotModel {
    match title_split(s) {
        (Some(t), b) => IngotModel { title: t, content: b, ..m },
        (None, b) => IngotModel { content: b, ..m },
    }
}

/// The text after the front-matter run.
pub open spec fn after_front(s: Seq<char>) -> Seq<char> {
    let k = front_run(s, 0, false).1;
    if k < s.len() {
        s.subrange(k, s.len() as int)
    } else {
        seq![]
    }
}

/// The record that document text `s` gives: the front matter is folded into
/// a zero record, then the back matter, so that it wins; then the title and
/// the body are taken from what is left.
pub open spec fn document_model(s: Seq<char>) -> IngotModel {
    let m1 = collate_from(front_run(s, 0, false).0, 0, zero_record(0));
    let (body, back) = split_back(after_front(s));
    let m2 = collate_from(tokens_from(back, 0), 0, m1);
    with_title(m2, body)
}

/// Folding nodes into a record keeps its reference lists raw.
proof fn lemma_collate_keeps_raw(ts: Toks, i: int, m: IngotModel)
    requires
        m.tags is Raw,
        m.categories is Raw,
    ensures
        collate_from(ts, i, m).tags is Raw,
        collate_from(ts, i, m).categories is Raw,
    decreases rem(ts.len() as int, i),
{
    if i < ts.len() {
        let (n, k) = parse_node(ts, true, i);
        if let Some(node) = n {
            if k > i {
                lemma_collate_keeps_raw(ts, k, apply_node(m, node));
            }
        }
    }
}

/// A parsed record's category and tag lists are raw: resolving them is a
/// later step.
pub proof fn lemma_parsed_lists_raw(s: Seq<char>)
    ensures
        document_model(s).tags is Raw,
        document_model(s).categories is Raw,
{
    let m1 = collate_from(front_run(s, 0, false).0, 0, zero_record(0));
    lemma_collate_keeps_raw(front_run(s, 0, false).0, 0, zero_record(0));
    lemma_collate_keeps_raw(tokens_from(split_back(after_front(s)).1, 0), 0, m1);
}

proof fn lemma_next_break_bounds(s: Seq<char>, i: int)
    requires
        0 <= i,
    ensures
        next_break(s, i) matches Some((p, l)) ==> i <= p && 1 <= l && p + l <= s.len(),
    decreases s.len() - i,
{
    if i < s.len() && s[i] != '\n' && s[i] != '\r' {
        lemma_next_break_bounds(s, i + 1);
    }
}

/// The first line break of `s` at or after `i`, with its length.
fn seek_next_nl(s: &Vec<char>, i: usize) -> (r: Option<(usize, usize)>)
    ensures
        r matches Some((p, l)) ==> next_break(s@, i as int) == Some((p as int, l as int)),
        r is None ==> next_break(s@, i as int) is None,
{
    let n = s.len();
    let mut k = i;
    while k < n
        invariant
            i <= k,
            n == s.len(),
            next_break(s@, i as int) == next_break(s@, k as int),
        decreases n - k,
    {
        if s[k] == '\n' {
            return Some((k, 1));
        } else if s[k] == '\r' {
            if k + 1 < n && s[k + 1] == '\n' {
                return Some((k, 2));
            }
            return Some((k, 1));
        }
        k = k + 1;
    }
    None
}

/// Whether `s[from..to]` holds only whitespace.
fn is_blank_range(s: &Vec<char>, from: usize, to: usize) -> (r: bool)
    requires
        from <= to <= s.len(),
    ensures
        r == is_blank(s@.subrange(from as int, to as int)),
{
    let mut k = from;
    while k < to
        invariant
            from <= k <= to <= s.len(),
            forall|j: int| from <= j < k ==> is_white(#[trigger] s@[j]),
        decreases to - k,
    {
        if !is_whitespace(s[k]) {
            assert(!is_white(s@.subrange(from as int, to as int)[k - from]));
            return false;
        }
        k = k + 1;
    }
    assert forall|j: int| 0 <= j < to - from implies is_white(
        #[trigger] s@.subrange(from as int, to as int)[j],
    ) by {
        assert(s@.subrange(from as int, to as int)[j] == s@[from + j]);
    }
    true
}

impl IngotParser {
    /// Splits `chars` into the body and the back matter: scanning backward,
    /// the first blank line (a line break met after another with only
    /// whitespace between them) marks where the back matter begins. Without
    /// one there is no back matter.
    pub fn split_back_matter(chars: Vec<char>) -> (r: (Vec<char>, Vec<char>))
        ensures
            (r.0@, r.1@) == split_back(chars@),
            r.0@ + r.1@ == chars@,
    {
        let ghost s = chars@;
        let n = chars.len();
        let mut j = n;
        let mut count: usize = 0;
        while j > 0
            invariant
                j <= n == chars.len(),
                chars@ == s,
                count <= 1,
                back_split(s, n as int, 0) == back_split(s, j as int, count as nat),
            decreases j,
        {
            let pos = j - 1;
            let c = chars[pos];
            if c == '\n' {
                let at = if pos > 0 && chars[pos - 1] == '\r' {
                    pos - 1
                } else {
                    pos
                };
                if count > 0 {
                    let mut body = chars;
                    let back = body.split_off(at);
                    assert(body@ + back@ =~= s);
                    return (body, back);
                }
                count = count + 1;
                j = at;
            } else if c == '\r' {
                if count > 0 {
                    let mut body = chars;
                    let back = body.split_off(pos);
                    assert(body@ + back@ =~= s);
                    return (body, back);
                }
                count = count + 1;
                j = pos;
            } else if is_whitespace(c) {
                j = pos;
            } else {
                count = 0;
                j = pos;
            }
        }
        let r = (chars, Vec::new());
        assert(r.0@ + r.1@ =~= s);
        r
    }

    /// Folds every key/value node that `parser` yields into `result`.
    fn collate_all(result: &mut Ingot, parser: &mut IngotMatterTokenParser)
        requires
            old(parser).pos == 0,
            old(parser).raw_tokens.len() < usize::MAX,
        ensures
            final(result)@ == collate_from(old(parser).toks(), 0, old(result)@),
    {
        let ghost ts = parser.toks();
        let ghost m0 = result@;
        loop
            invariant_except_break
                parser.toks() == ts,
                parser.raw_tokens.len() < usize::MAX,
                collate_from(ts, 0, m0) == collate_from(ts, parser.pos as int, result@),
            ensures
                collate_from(ts, 0, m0) == result@,
            decreases rem(ts.len() as int, parser.pos as int),
        {
            let ghost i = parser.pos as int;
            let ghost m = result@;
            if parser.pos >= parser.raw_tokens.len() {
                break;
            }
            match parser.next_token_node() {
                None => {
                    break;
                },
                Some(t_node) => {
                    let ghost n = node_model(t_node);
                    match t_node.token {
                        BlockToken::KeyValue(key, value) => {
                            IngotParser::set_from_key_value(result, key, *value);
                            proof {
                                assert(unbox(crate::token::boxed(opt_model(*value))) == opt_model(
                                    *value,
                                ));
                            }
                        },
                        _ => {},
                    }
                    proof {
                        assert(result@ == apply_node(m, n));
                    }
                },
            }
        }
    }

    /// The record that document text `buffer` gives: front matter up to the
    /// first blank line, back matter after the last boundary, each folded
    /// into a zero record (back matter last, so that it wins), then title and
    /// body from what is left.
    pub fn parse_text(buffer: &str) -> (r: Ingot)
        requires
            buffer@.len() < usize::MAX,
        ensures
            r@ == document_model(buffer@),
    {
        let ghost s = buffer@;
        let mut result = Ingot::new(0);
        let mut tokenizer = IngotTokenizer::new(chars_of(buffer));
        let mut front: Vec<RawTokenData> = Vec::new();
        let mut prev_nl = false;
        loop
            invariant_except_break
                tokenizer.chars@ == s,
                s.len() < usize::MAX,
                front@.len() <= tokenizer.pos <= s.len(),
                front_run(s, 0, false) == (
                    tokens_model(front@) + front_run(s, tokenizer.pos as int, prev_nl).0,
                    front_run(s, tokenizer.pos as int, prev_nl).1,
                ),
            ensures
                tokenizer.chars@ == s,
                front@.len() <= s.len(),
                front_run(s, 0, false) == (tokens_model(front@), tokenizer.pos as int),
            decreases s.len() - tokenizer.pos,
        {
            let ghost i = tokenizer.pos as int;
            let ghost f0 = front@;
            if tokenizer.pos < tokenizer.chars.len() {
                proof {
                    lemma_scan_advances(s, i);
                }
            }
            let (pos, token) = tokenizer.next_raw_token();
            let is_new_line = match &token {
                RawToken::Sep(Sep::NewLine) => true,
                _ => false,
            };
            match token {
                RawToken::Eos => {
                    proof {
                        assert(tokens_model(front@) + Seq::<(usize, TokenModel)>::empty()
                            =~= tokens_model(front@));
                    }
                    break;
                },
                _ => {
                    if is_new_line && prev_nl {
                        proof {
                            assert(tokens_model(front@) + Seq::<(usize, TokenModel)>::empty()
                                =~= tokens_model(front@));
                        }
                        break;
                    }
                    let ghost tm = token@;
                    front.push((pos, token));
                    prev_nl = is_new_line;
                    proof {
                        assert(tokens_model(front@) =~= tokens_model(f0).push((pos, tm)));
                        assert(tokens_model(f0) + (seq![(pos, tm)] + front_run(
                            s,
                            tokenizer.pos as int,
                            prev_nl,
                        ).0) =~= tokens_model(front@) + front_run(
                            s,
                            tokenizer.pos as int,
                            prev_nl,
                        ).0);
                    }
                },
            }
        }
        let (_cpos, rest) = tokenizer.get_rest_all();
        assert(rest@ == after_front(s));
        let mut parser = IngotMatterTokenParser::new(front);
        IngotParser::collate_all(&mut result, &mut parser);
        assert(result@ == collate_from(front_run(s, 0, false).0, 0, zero_record(0)));
        let (content, back_matter) = IngotParser::split_back_matter(rest);
        let ghost m1 = result@;
        let mut back_parser = IngotMatterTokenParser::new(tokenize(back_matter));
        IngotParser::collate_all(&mut result, &mut back_parser);
        assert(result@ == collate_from(tokens_from(split_back(after_front(s)).1, 0), 0, m1));
        IngotParser::set_title_and_content(&mut result, &content);
        result
    }

    /// Sets the title and the body that the remaining text `content` gives.
    fn set_title_and_content(result: &mut Ingot, content: &Vec<char>)
        ensures
            final(result)@ == with_title(old(result)@, content@),
    {
        let ghost s = content@;
        let n = content.len();
        let mut r0: usize = 0;
        loop
            invariant
                r0 <= n == content.len(),
                s == content@,
                skip_blank_lines(s, 0) == skip_blank_lines(s, r0 as int),
            ensures
                r0 <= n == content.len(),
                s == content@,
                skip_blank_lines(s, 0) == r0,
            decreases n - r0,
        {
            proof {
                lemma_next_break_bounds(s, r0 as int);
            }
            match seek_next_nl(content, r0) {
                Some((p, l)) => {
                    if is_blank_range(content, r0, p) {
                        r0 = p + l;
                    } else {
                        break;
                    }
                },
                None => {
                    break;
                },
            }
        }
        proof {
            lemma_next_break_bounds(s, r0 as int);
        }
        match seek_next_nl(content, r0) {
            None => {
                let r = string_from_range(content, r0, n);
                if is_blank_range(content, r0, n) {
                    result.title = r;
                    result.content = string_from_range(content, r0, n);
                } else {
                    result.title = r;
                    result.content = String::new();
                    assert(result.content@ =~= Seq::<char>::empty());
                }
            },
            Some((p, l)) => {
                let q = p + l;
                proof {
                    lemma_next_break_bounds(s, q as int);
                }
                match seek_next_nl(content, q) {
                    Some((next_at, next_len)) => {
                        if is_blank_range(content, q, next_at) {
                            result.title = string_from_range(content, r0, p);
                            result.content = string_from_range(content, next_at + next_len, n);
                        } else {
                            result.content = string_from_range(content, r0, n);
                        }
                    },
                    None => {
                        if is_blank_range(content, q, n) {
                            result.title = string_from_range(content, r0, p);
                            result.content = String::new();
                            assert(result.content@ =~= Seq::<char>::empty());
                        } else {
                            result.content = string_from_range(content, r0, n);
                        }
                    },
                }
            },
        }
    }

    /// The record for a document whose text was read as `read`; a failed read
    /// gives the I/O error and no record.
    pub fn from_read(read: Result<String, std::io::Error>) -> (r: Result<Ingot, ParseError>)
        requires
            read matches Ok(s) ==> s@.len() < usize::MAX,
        ensures
            read matches Err(e) ==> r matches Err(ParseError::IO(x)) && x == e,
            read matches Ok(s) ==> r matches Ok(ingot) && ingot@ == document_model(s@),
    {
        match read {
            Ok(buffer) => Ok(IngotParser::parse_text(buffer.as_str())),
            Err(e) => Err(ParseError::IO(e)),
        }
    }
}

} // verus!
