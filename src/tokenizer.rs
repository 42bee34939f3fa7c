//! The character-level scanner: turns a character buffer into raw tokens,
//! each tagged with the offset at which it begins.
use crate::text::string_from_range;
use crate::token::{
    Bracket, BracketRole, BracketType, CommentMark, Quote, RawToken, RawTokenData, Sep, SepModel,
    TokenModel, token_text, tokens_model,
};
use vstd::prelude::*;

verus! {

/// The characters that end a plain word.
pub open spec fn is_symbol(c: char) -> bool {
    c == '{' || c == '}' || c == '[' || c == ']' || c == '(' || c == ')' || c == '<' || c == '>'
        || c == ',' || c == ';' || c == ':' || c == ' ' || c == '\t' || c == '\n' || c == '\r'
        || c == '"' || c == '\'' || c == '/'
}

/// The end of the run of spaces and tabs in `s` that starts at `k`.
pub open spec fn blank_end(s: Seq<char>, k: int) -> int
    decreases s.len() - k,
{
    if 0 <= k < s.len() && (s[k] == ' ' || s[k] == '\t') {
        blank_end(s, k + 1)
    } else {
        k
    }
}

/// The end of the plain word in `s` whose remainder starts at `k`: a backslash
/// takes the next character with it, and `*/` or a symbol ends the word.
pub open spec fn word_end(s: Seq<char>, k: int) -> int
    decreases s.len() - k,
{
    if k < 0 || k >= s.len() {
        k
    } else if is_symbol(s[k]) {
        k
    } else if s[k] == '\\' {
        if k + 1 < s.len() {
            word_end(s, k + 2)
        } else {
            k + 1
        }
    } else if s[k] == '*' && k + 1 < s.len() && s[k + 1] == '/' {
        k
    } else {
        word_end(s, k + 1)
    }
}

/// Whether the character after offset `i` of `s` is `c`.
pub open spec fn next_is(s: Seq<char>, i: int, c: char) -> bool {
    i + 1 < s.len() && s[i + 1] == c
}

/// The token that begins at offset `i` of `s`, with the offset after it.
pub open spec fn scan(s: Seq<char>, i: int) -> (TokenModel, int) {
    if i < 0 || i >= s.len() {
        (TokenModel::Eos, i)
    } else {
        let c = s[i];
        if c == '\'' {
            (TokenModel::Quote(Quote::Single), i + 1)
        } else if c == '"' {
            (TokenModel::Quote(Quote::Double), i + 1)
        } else if c == ',' {
            (TokenModel::Sep(SepModel::Comma), i + 1)
        } else if c == ':' {
            (TokenModel::Sep(SepModel::Colon), i + 1)
        } else if c == '\n' {
            (TokenModel::Sep(SepModel::NewLine), i + 1)
        } else if c == '\r' {
            (TokenModel::Sep(SepModel::NewLine), if next_is(s, i, '\n') { i + 2 } else { i + 1 })
        } else if c == ' ' || c == '\t' {
            let j = blank_end(s, i + 1);
            (TokenModel::Sep(SepModel::WhiteSpaces(s.subrange(i, j))), j)
        } else if c == '[' || c == ']' || c == '{' || c == '}' || c == '(' || c == ')' || c == '<'
            || c == '>' {
            (TokenModel::Bracket(bracket_of(c)), i + 1)
        } else if c == '/' {
            if next_is(s, i, '/') {
                (TokenModel::Comment(CommentMark::LineBegin), i + 2)
            } else if next_is(s, i, '*') {
                (TokenModel::Comment(CommentMark::BlockBegin), i + 2)
            } else {
                (TokenModel::SimpleString(seq!['/']), i + 1)
            }
        } else if c == '*' {
            if next_is(s, i, '/') {
                (TokenModel::Comment(CommentMark::BlockEnd), i + 2)
            } else {
                (TokenModel::SimpleString(seq!['*']), i + 1)
            }
        } else {
            let j = if c == '\\' && i + 1 < s.len() {
                word_end(s, i + 2)
            } else {
                word_end(s, i + 1)
            };
            (TokenModel::SimpleString(s.subrange(i, j)), j)
        }
    }
}

/// The bracket that a bracket character stands for.
pub open spec fn bracket_of(c: char) -> Bracket {
    Bracket {
        role: if c == '[' || c == '{' || c == '(' || c == '<' {
            BracketRole::Start
        } else {
            BracketRole::End
        },
        bracket_type: if c == '[' || c == ']' {
            BracketType::Square
        } else if c == '{' || c == '}' {
            BracketType::Curly
        } else if c == '(' || c == ')' {
            BracketType::Normal
        } else {
            BracketType::Angle
        },
    }
}

proof fn lemma_blank_end(s: Seq<char>, k: int)
    requires
        0 <= k <= s.len(),
    ensures
        k <= blank_end(s, k) <= s.len(),
    decreases s.len() - k,
{
    if k < s.len() && (s[k] == ' ' || s[k] == '\t') {
        lemma_blank_end(s, k + 1);
    }
}

proof fn lemma_word_end(s: Seq<char>, k: int)
    requires
        0 <= k <= s.len(),
    ensures
        k <= word_end(s, k) <= s.len(),
    decreases s.len() - k,
{
    if k < s.len() && !is_symbol(s[k]) {
        if s[k] == '\\' {
            if k + 1 < s.len() {
                lemma_word_end(s, k + 2);
            }
        } else if !(s[k] == '*' && k + 1 < s.len() && s[k + 1] == '/') {
            lemma_word_end(s, k + 1);
        }
    }
}

/// A token inside the text takes at least one character, and no more than
/// there are.
pub proof fn lemma_scan_advances(s: Seq<char>, i: int)
    requires
        0 <= i < s.len(),
    ensures
        i < scan(s, i).1 <= s.len(),
{
    lemma_blank_end(s, i + 1);
    if i + 1 < s.len() {
        lemma_word_end(s, i + 2);
    }
    lemma_word_end(s, i + 1);
}

/// The tokens of `s` from offset `i` to its end, each with its offset.
pub open spec fn tokens_from(s: Seq<char>, i: int) -> Seq<(usize, TokenModel)>
    decreases s.len() - i,
{
    if i < 0 || i >= s.len() {
        seq![]
    } else {
        let (t, j) = scan(s, i);
        if j <= i || j > s.len() {
            seq![]
        } else {
            seq![(i as usize, t)] + tokens_from(s, j)
        }
    }
}

/// The text of a token sequence, in order.
pub open spec fn tokens_text(ts: Seq<(usize, TokenModel)>) -> Seq<char>
    decreases ts.len(),
{
    if ts.len() == 0 {
        seq![]
    } else {
        token_text(ts[0].1) + tokens_text(ts.drop_first())
    }
}

/// Scanning a word leaves its characters as they are.
proof fn lemma_scan_text(s: Seq<char>, i: int)
    requires
        0 <= i < s.len(),
        s[i] != '\r',
    ensures
        token_text(scan(s, i).0) == s.subrange(i, scan(s, i).1),
{
    lemma_scan_advances(s, i);
    let c = s[i];
    let j = scan(s, i).1;
    if j == i + 1 {
        assert(s.subrange(i, i + 1) =~= seq![c]);
    } else if j == i + 2 && (c == '/' || c == '*') {
        assert(s.subrange(i, i + 2) =~= seq![c, s[i + 1]]);
    }
}

/// Without carriage returns, the tokens of a text, read back in order, give
/// the text itself.
pub proof fn lemma_tokens_text_round_trip(s: Seq<char>)
    requires
        forall|k: int| 0 <= k < s.len() ==> s[k] != '\r',
    ensures
        tokens_text(tokens_from(s, 0)) == s,
{
    lemma_tokens_text_from(s, 0);
    assert(s.subrange(0, s.len() as int) =~= s);
}

proof fn lemma_tokens_text_from(s: Seq<char>, i: int)
    requires
        0 <= i <= s.len(),
        forall|k: int| 0 <= k < s.len() ==> s[k] != '\r',
    ensures
        tokens_text(tokens_from(s, i)) == s.subrange(i, s.len() as int),
    decreases s.len() - i,
{
    if i == s.len() {
        assert(s.subrange(i, i) =~= Seq::<char>::empty());
    } else {
        lemma_scan_advances(s, i);
        lemma_scan_text(s, i);
        let j = scan(s, i).1;
        lemma_tokens_text_from(s, j);
        let ts = tokens_from(s, i);
        assert(ts.drop_first() =~= tokens_from(s, j));
        assert(s.subrange(i, s.len() as int) =~= s.subrange(i, j) + s.subrange(j, s.len() as int));
    }
}

/// The scanner: a character buffer and a cursor into it.
#[derive(Debug)]
pub struct IngotTokenizer {
    pub chars: Vec<char>,
    pub pos: usize,
}

impl IngotTokenizer {
    pub fn new(chars: Vec<char>) -> (r: IngotTokenizer)
        ensures
            r.chars@ == chars@,
            r.pos == 0,
    {
        IngotTokenizer { chars, pos: 0 }
    }

    /// The character at the cursor, moving the cursor one place on.
    pub fn next_char(&mut self) -> (r: Option<char>)
        requires
            old(self).pos < usize::MAX,
        ensures
            final(self).chars == old(self).chars,
            final(self).pos == old(self).pos + 1,
            r == if old(self).pos < old(self).chars.len() {
                Some(old(self).chars@[old(self).pos as int])
            } else {
                None
            },
    {
        let result = match self.peek_next_char() {
            Some(c) => Some(*c),
            None => None,
        };
        self.pos = self.pos + 1;
        result
    }

    /// The character at the cursor.
    pub fn peek_next_char(&self) -> (r: Option<&char>)
        ensures
            r == if self.pos < self.chars.len() {
                Some(&self.chars@[self.pos as int])
            } else {
                None
            },
    {
        if self.pos < self.chars.len() {
            Some(&self.chars[self.pos])
        } else {
            None
        }
    }

    /// Moves the cursor one place back.
    pub fn pos_back(&mut self)
        requires
            old(self).pos > 0,
        ensures
            final(self).chars == old(self).chars,
            final(self).pos == old(self).pos - 1,
    {
        self.pos = self.pos - 1;
    }

    /// Moves the cursor one place on.
    pub fn pos_next(&mut self)
        requires
            old(self).pos < usize::MAX,
        ensures
            final(self).chars == old(self).chars,
            final(self).pos == old(self).pos + 1,
    {
        self.pos = self.pos + 1;
    }

    /// Whether `c` ends a plain word.
    pub fn is_symbol_char(c: char) -> (r: bool)
        ensures
            r == is_symbol(c),
    {
        c == '{' || c == '}' || c == '[' || c == ']' || c == '(' || c == ')' || c == '<' || c
            == '>' || c == ',' || c == ';' || c == ':' || c == ' ' || c == '\t' || c == '\n' || c
            == '\r' || c == '"' || c == '\'' || c == '/'
    }

    /// Whether the character after the cursor's one is `c`.
    fn next_is(&self, c: char) -> (r: bool)
        requires
            self.pos < self.chars.len(),
        ensures
            r == next_is(self.chars@, self.pos as int, c),
    {
        self.pos + 1 < self.chars.len() && self.chars[self.pos + 1] == c
    }

    /// The end of the run of spaces and tabs that starts at `k`.
    fn blank_end(&self, k: usize) -> (r: usize)
        requires
            k <= self.chars.len(),
        ensures
            r == blank_end(self.chars@, k as int),
    {
        let mut j = k;
        while j < self.chars.len() && (self.chars[j] == ' ' || self.chars[j] == '\t')
            invariant
                k <= j <= self.chars.len(),
                blank_end(self.chars@, k as int) == blank_end(self.chars@, j as int),
            decreases self.chars.len() - j,
        {
            j = j + 1;
        }
        j
    }

    /// The end of the plain word whose remainder starts at `k`.
    fn word_end(&self, k: usize) -> (r: usize)
        requires
            k <= self.chars.len(),
        ensures
            r == word_end(self.chars@, k as int),
    {
        let n = self.chars.len();
        let mut j = k;
        while j < n
            invariant
                k <= j <= n == self.chars.len(),
                word_end(self.chars@, k as int) == word_end(self.chars@, j as int),
            decreases n - j,
        {
            let c = self.chars[j];
            if IngotTokenizer::is_symbol_char(c) {
                return j;
            } else if c == '\\' {
                if j + 1 < n {
                    j = j + 2;
                } else {
                    return j + 1;
                }
            } else if c == '*' && j + 1 < n && self.chars[j + 1] == '/' {
                return j;
            } else {
                j = j + 1;
            }
        }
        j
    }

    /// The token at the cursor, with its offset; the cursor moves past it. At
    /// the end of the buffer the token is the end of the stream, again and
    /// again.
    pub fn next_raw_token(&mut self) -> (r: RawTokenData)
        ensures
            final(self).chars == old(self).chars,
            r.0 == old(self).pos,
            r.1@ == scan(old(self).chars@, old(self).pos as int).0,
            final(self).pos == scan(old(self).chars@, old(self).pos as int).1,
    {
        let pos = self.pos;
        let n = self.chars.len();
        if pos >= n {
            return (pos, RawToken::Eos);
        }
        let c = self.chars[pos];
        let token = if c == '\'' {
            self.pos = pos + 1;
            RawToken::Quote(Quote::Single)
        } else if c == '"' {
            self.pos = pos + 1;
            RawToken::Quote(Quote::Double)
        } else if c == ',' {
            self.pos = pos + 1;
            RawToken::Sep(Sep::Comma)
        } else if c == ':' {
            self.pos = pos + 1;
            RawToken::Sep(Sep::Colon)
        } else if c == '\n' {
            self.pos = pos + 1;
            RawToken::Sep(Sep::NewLine)
        } else if c == '\r' {
            self.pos = if self.next_is('\n') {
                pos + 2
            } else {
                pos + 1
            };
            RawToken::Sep(Sep::NewLine)
        } else if c == ' ' || c == '\t' {
            let j = self.blank_end(pos + 1);
            proof {
                lemma_blank_end(self.chars@, pos + 1);
            }
            self.pos = j;
            RawToken::Sep(Sep::WhiteSpaces(string_from_range(&self.chars, pos, j)))
        } else if c == '[' || c == ']' || c == '{' || c == '}' || c == '(' || c == ')' || c == '<'
            || c == '>' {
            self.pos = pos + 1;
            let role = if c == '[' || c == '{' || c == '(' || c == '<' {
                BracketRole::Start
            } else {
                BracketRole::End
            };
            let kind = if c == '[' || c == ']' {
                BracketType::Square
            } else if c == '{' || c == '}' {
                BracketType::Curly
            } else if c == '(' || c == ')' {
                BracketType::Normal
            } else {
                BracketType::Angle
            };
            RawToken::Bracket(Bracket::new(role, kind))
        } else if c == '/' {
            if self.next_is('/') {
                self.pos = pos + 2;
                RawToken::Comment(CommentMark::LineBegin)
            } else if self.next_is('*') {
                self.pos = pos + 2;
                RawToken::Comment(CommentMark::BlockBegin)
            } else {
                self.pos = pos + 1;
                RawToken::SimpleString(string_from_range(&self.chars, pos, pos + 1))
            }
        } else if c == '*' {
            if self.next_is('/') {
                self.pos = pos + 2;
                RawToken::Comment(CommentMark::BlockEnd)
            } else {
                self.pos = pos + 1;
                RawToken::SimpleString(string_from_range(&self.chars, pos, pos + 1))
            }
        } else {
            let j = if c == '\\' && pos + 1 < n {
                proof {
                    lemma_word_end(self.chars@, pos + 2);
                }
                self.word_end(pos + 2)
            } else {
                proof {
                    lemma_word_end(self.chars@, pos + 1);
                }
                self.word_end(pos + 1)
            };
            self.pos = j;
            RawToken::SimpleString(string_from_range(&self.chars, pos, j))
        };
        proof {
            if c == '/' || c == '*' {
                assert(self.chars@.subrange(pos as int, pos + 1) =~= seq![c]);
            }
        }
        (pos, token)
    }

    /// The characters from the cursor on, with the cursor's offset; the
    /// buffer keeps only what lies before the cursor.
    pub fn get_rest_all(&mut self) -> (r: (usize, Vec<char>))
        ensures
            r.0 == old(self).pos,
            final(self).pos == old(self).pos,
            old(self).pos < old(self).chars.len() ==> {
                &&& r.1@ == old(self).chars@.subrange(
                    old(self).pos as int,
                    old(self).chars.len() as int,
                )
                &&& final(self).chars@ == old(self).chars@.subrange(0, old(self).pos as int)
            },
            old(self).pos >= old(self).chars.len() ==> {
                &&& r.1@.len() == 0
                &&& final(self).chars == old(self).chars
            },
    {
        if self.chars.len() > self.pos {
            let rest = self.chars.split_off(self.pos);
            (self.pos, rest)
        } else {
            (self.pos, Vec::new())
        }
    }
}

/// All tokens of `chars`, up to the end of the stream, which is left out.
pub fn tokenize(chars: Vec<char>) -> (r: Vec<RawTokenData>)
    ensures
        tokens_model(r@) == tokens_from(chars@, 0),
        r@.len() <= chars@.len(),
{
    let ghost s = chars@;
    let mut tokenizer = IngotTokenizer::new(chars);
    let mut r: Vec<RawTokenData> = Vec::new();
    while tokenizer.pos < tokenizer.chars.len()
        invariant
            tokenizer.chars@ == s,
            tokenizer.pos <= s.len(),
            r@.len() <= tokenizer.pos,
            tokens_from(s, 0) == tokens_model(r@) + tokens_from(s, tokenizer.pos as int),
        decreases s.len() - tokenizer.pos,
    {
        let ghost i = tokenizer.pos as int;
        proof {
            lemma_scan_advances(s, i);
        }
        let t = tokenizer.next_raw_token();
        let ghost r0 = r@;
        r.push(t);
        proof {
            assert(tokens_model(r@) =~= tokens_model(r0).push((i as usize, t.1@)));
            assert(tokens_from(s, i) == seq![(i as usize, t.1@)] + tokens_from(s, tokenizer.pos as int));
            assert(tokens_model(r0) + tokens_from(s, i) =~= tokens_model(r@) + tokens_from(
                s,
                tokenizer.pos as int,
            ));
        }
    }
    proof {
        assert(tokens_model(r@) + tokens_from(s, tokenizer.pos as int) =~= tokens_model(r@));
    }
    r
}

} // verus!
