use vstd::prelude::*;

use crate::text::{chars_of, lower_of, lowercase, string_of};

verus! {

/// What a token is.
#[derive(Debug, Clone, PartialEq)]
pub enum TokenKind {
    /// A bare word used as a table key.
    Key(String),
    /// A variable reference, without its sigil.
    Ident(String),
    /// The text of a scalar: quoted strings keep their quote at both ends.
    Literal(String),
    /// One of `{ } ( ) [ ]`.
    Separator(char),
}

/// A token with the line (from 1) and column where it starts.
#[derive(Debug, Clone, PartialEq)]
pub struct Token {
    pub kind: TokenKind,
    pub line: usize,
    pub col: usize,
}

/// The mathematical value of a `TokenKind`.
pub enum KindView {
    Key(Seq<char>),
    Ident(Seq<char>),
    Literal(Seq<char>),
    Separator(char),
}

/// The mathematical value of a `Token`.
pub struct TokenView {
    pub kind: KindView,
    pub line: nat,
    pub col: nat,
}

impl View for TokenKind {
    type V = KindView;

    open spec fn view(&self) -> KindView {
        match self {
            TokenKind::Key(s) => KindView::Key(s@),
            TokenKind::Ident(s) => KindView::Ident(s@),
            TokenKind::Literal(s) => KindView::Literal(s@),
            TokenKind::Separator(c) => KindView::Separator(*c),
        }
    }
}

impl View for Token {
    type V = TokenView;

    open spec fn view(&self) -> TokenView {
        TokenView { kind: self.kind@, line: self.line as nat, col: self.col as nat }
    }
}

/// The views of a sequence of tokens.
pub open spec fn tokens_view(v: Seq<Token>) -> Seq<TokenView> {
    v.map_values(|t: Token| t@)
}

/// A failure of the tokenizer.
#[derive(Debug, Clone, Copy, PartialEq, Eq, Structural)]
pub enum LexError {
    /// The input ended inside the string literal that starts here.
    UnterminatedString { line: usize, col: usize },
}

/// Where the tokenizer stands: the offset of the current character, the
/// current line, and the offset where the current line starts, from which
/// columns are counted from 0.
pub struct Pos {
    pub cur: nat,
    pub line: nat,
    pub bol: nat,
}

/// The position at the start of a text.
pub open spec fn start_pos() -> Pos {
    Pos { cur: 0, line: 1, bol: 0 }
}

/// ASCII whitespace: space, tab, line feed, form feed and carriage return.
pub open spec fn is_space(c: char) -> bool {
    c == ' ' || c == '\t' || c == '\n' || c == '\x0C' || c == '\r'
}

pub open spec fn is_separator_char(c: char) -> bool {
    c == '{' || c == '}' || c == '(' || c == ')' || c == '[' || c == ']'
}

pub open spec fn is_digit(c: char) -> bool {
    '0' <= c && c <= '9'
}

/// The position after skipping whitespace and `#` comments from `p`;
/// `in_comment` says that `p` lies inside a comment. A line feed counts a
/// line, and the offset after it is where the next line starts.
pub open spec fn skip_blank(s: Seq<char>, p: Pos, in_comment: bool) -> Pos
    decreases s.len() - p.cur,
{
    if p.cur >= s.len() {
        p
    } else {
        let c = s[p.cur as int];
        if c == '\n' {
            skip_blank(s, Pos { cur: p.cur + 1, line: p.line + 1, bol: p.cur + 1 }, false)
        } else if in_comment || is_space(c) {
            skip_blank(s, Pos { cur: p.cur + 1, ..p }, in_comment)
        } else if c == '#' {
            skip_blank(s, Pos { cur: p.cur + 1, ..p }, true)
        } else {
            p
        }
    }
}

/// The end of the run of characters from `i` that holds no whitespace and
/// no separator.
pub open spec fn run_end(s: Seq<char>, i: nat) -> nat
    decreases s.len() - i,
{
    if i < s.len() && !is_space(s[i as int]) && !is_separator_char(s[i as int]) {
        run_end(s, i + 1)
    } else {
        i
    }
}

/// A run ends no earlier than it starts, and later where its first
/// character belongs to it.
pub proof fn lemma_run_end(s: Seq<char>, i: nat)
    ensures
        run_end(s, i) >= i,
        i < s.len() ==> run_end(s, i) <= s.len(),
        i < s.len() && !is_space(s[i as int]) && !is_separator_char(s[i as int]) ==> run_end(s, i) > i,
    decreases s.len() - i,
{
    if i < s.len() && !is_space(s[i as int]) && !is_separator_char(s[i as int]) {
        lemma_run_end(s, i + 1);
    }
}

/// The character that a backslash followed by `c` stands for.
pub open spec fn unescape(c: char) -> char {
    if c == 'n' {
        '\n'
    } else if c == 'r' {
        '\r'
    } else {
        c
    }
}

/// `r` with `b` put in front of the characters it found.
pub open spec fn with_prefix(b: Seq<char>, r: Option<(Seq<char>, nat)>) -> Option<(Seq<char>, nat)> {
    match r {
        Some((x, e)) => Some((b + x, e)),
        None => None,
    }
}

/// Reads the body of a string literal from `i` up to an unescaped `t`: the
/// characters it stands for and the offset of the closing `t`, or `None`
/// where the input ends first.
pub open spec fn scan_string(s: Seq<char>, t: char, i: nat) -> Option<(Seq<char>, nat)>
    decreases s.len() - i,
{
    if i >= s.len() {
        None
    } else if s[i as int] == t {
        Some((Seq::empty(), i))
    } else if s[i as int] == '\\' {
        if i + 1 >= s.len() {
            None
        } else {
            with_prefix(seq![unescape(s[i + 1 as int])], scan_string(s, t, i + 2))
        }
    } else {
        with_prefix(seq![s[i as int]], scan_string(s, t, i + 1))
    }
}

/// A string body ends at or after the offset it starts from.
pub proof fn lemma_scan_string_end(s: Seq<char>, t: char, i: nat)
    ensures
        scan_string(s, t, i) matches Some((_, e)) ==> i <= e < s.len(),
    decreases s.len() - i,
{
    if i < s.len() && s[i as int] != t {
        if s[i as int] == '\\' {
            if i + 1 < s.len() {
                lemma_scan_string_end(s, t, i + 2);
            }
        } else {
            lemma_scan_string_end(s, t, i + 1);
        }
    }
}

/// The words that read as literals although they start with no digit.
pub open spec fn is_word_literal(w: Seq<char>) -> bool {
    w == "yes"@ || w == "no"@ || w == "true"@ || w == "false"@ || w == "null"@ || w == "nil"@
}

/// Whether a lowercased run is a literal: it starts with a digit or `-`, or
/// it is one of the literal words.
pub open spec fn is_literal_text(w: Seq<char>) -> bool {
    (w.len() > 0 && (w[0] == '-' || is_digit(w[0]))) || is_word_literal(w)
}

/// A token of kind `k` that starts at `p`.
pub open spec fn token_at(k: KindView, p: Pos) -> TokenView {
    TokenView { kind: k, line: p.line, col: (p.cur - p.bol) as nat }
}

/// The next token after `p`, if any is left once whitespace and comments
/// are skipped, and the position after it.
pub open spec fn next_token_spec(s: Seq<char>, p: Pos) -> Result<(Option<TokenView>, Pos), LexError> {
    let q = skip_blank(s, p, false);
    if q.cur >= s.len() {
        Ok((None, q))
    } else {
        let c = s[q.cur as int];
        let e = run_end(s, q.cur);
        let word = lower_of(s.subrange(q.cur as int, e as int));
        if is_separator_char(c) {
            Ok((Some(token_at(KindView::Separator(c), q)), Pos { cur: q.cur + 1, ..q }))
        } else if c == '"' || c == '\'' {
            match scan_string(s, c, q.cur + 1) {
                None => Err(
                    LexError::UnterminatedString {
                        line: q.line as usize,
                        col: (q.cur - q.bol) as usize,
                    },
                ),
                Some((body, end)) => Ok(
                    (
                        Some(token_at(KindView::Literal(seq![c] + body + seq![c]), q)),
                        Pos { cur: end + 1, ..q },
                    ),
                ),
            }
        } else if is_literal_text(word) {
            Ok((Some(token_at(KindView::Literal(word), q)), Pos { cur: e, ..q }))
        } else if c == '$' {
            let f = run_end(s, q.cur + 1);
            Ok(
                (
                    Some(token_at(KindView::Ident(s.subrange(q.cur + 1 as int, f as int)), q)),
                    Pos { cur: f, ..q },
                ),
            )
        } else {
            Ok((Some(token_at(KindView::Key(s.subrange(q.cur as int, e as int)), q)), Pos { cur: e, ..q }))
        }
    }
}

/// `r` with `t`, where there is one, put in front of the tokens it holds.
pub open spec fn prepend_token(t: Option<TokenView>, r: Result<Seq<TokenView>, LexError>) -> Result<Seq<TokenView>, LexError> {
    match (t, r) {
        (Some(x), Ok(ts)) => Ok(seq![x] + ts),
        _ => r,
    }
}

/// The view of a token that may be missing.
pub open spec fn opt_token_view(t: Option<Token>) -> Option<TokenView> {
    match t {
        Some(x) => Some(x@),
        None => None,
    }
}

/// `r` with `ts` put in front of the tokens it holds.
pub open spec fn prepend_tokens(ts: Seq<TokenView>, r: Result<Seq<TokenView>, LexError>) -> Result<Seq<TokenView>, LexError> {
    match r {
        Ok(rest) => Ok(ts + rest),
        Err(e) => Err(e),
    }
}

/// The tokens of `s` from `p` on. Tokenizing stops once fewer than two
/// characters are left. (Every step moves forward; the test on `q` only
/// makes that evident.)
pub open spec fn lex_from(s: Seq<char>, p: Pos) -> Result<Seq<TokenView>, LexError>
    decreases s.len() - p.cur,
{
    if p.cur + 1 >= s.len() {
        Ok(Seq::empty())
    } else {
        match next_token_spec(s, p) {
            Err(e) => Err(e),
            Ok((t, q)) => if p.cur < q.cur && q.cur <= s.len() {
                prepend_token(t, lex_from(s, q))
            } else {
                Ok(Seq::empty())
            },
        }
    }
}

/// The tokens of a whole text.
pub open spec fn tokenize(s: Seq<char>) -> Result<Seq<TokenView>, LexError> {
    lex_from(s, start_pos())
}

/// Whether a lowercased run of characters reads as a literal.
pub fn is_literal_word(w: &str) -> (r: bool)
    ensures
        r == is_literal_text(w@),
{
    let cs = chars_of(w);
    if cs.len() > 0 && (cs[0] == '-' || ('0' <= cs[0] && cs[0] <= '9')) {
        return true;
    }
    eq_word(&cs, "yes") || eq_word(&cs, "no") || eq_word(&cs, "true") || eq_word(&cs, "false")
        || eq_word(&cs, "null") || eq_word(&cs, "nil")
}

/// Whether the characters of `w` are those of `k`.
pub fn eq_word(w: &Vec<char>, k: &str) -> (r: bool)
    ensures
        r == (w@ == k@),
{
    let ks = chars_of(k);
    if w.len() != ks.len() {
        return false;
    }
    let mut i: usize = 0;
    while i < w.len()
        invariant
            w@.len() == ks@.len(),
            ks@ == k@,
            i <= w@.len(),
            w@.subrange(0, i as int) == ks@.subrange(0, i as int),
        decreases w@.len() - i,
    {
        if w[i] != ks[i] {
            return false;
        }
        assert(w@.subrange(0, i + 1) == w@.subrange(0, i as int).push(w@[i as int]));
        assert(ks@.subrange(0, i + 1) == ks@.subrange(0, i as int).push(ks@[i as int]));
        i += 1;
    }
    assert(w@ == w@.subrange(0, w@.len() as int));
    assert(ks@ == ks@.subrange(0, ks@.len() as int));
    true
}

/// A tokenizer over the characters of a source text.
pub struct Lexer {
    file: Vec<char>,
    cur: usize,
    line: usize,
    bol: usize,
}

impl Token {
    pub fn new(kind: TokenKind, line: usize, col: usize) -> (r: Self)
        ensures
            r.kind == kind,
            r.line == line,
            r.col == col,
    {
        Self { kind, line, col }
    }

    /// A copy of the token.
    pub fn duplicate(&self) -> (r: Self)
        ensures
            r@ == self@,
    {
        let kind = match &self.kind {
            TokenKind::Key(s) => TokenKind::Key(s.clone()),
            TokenKind::Ident(s) => TokenKind::Ident(s.clone()),
            TokenKind::Literal(s) => TokenKind::Literal(s.clone()),
            TokenKind::Separator(c) => TokenKind::Separator(*c),
        };
        Token { kind, line: self.line, col: self.col }
    }
}

impl Lexer {
    /// The characters being tokenized.
    pub closed spec fn source(&self) -> Seq<char> {
        self.file@
    }

    /// Where the lexer stands.
    pub closed spec fn pos(&self) -> Pos {
        Pos { cur: self.cur as nat, line: self.line as nat, bol: self.bol as nat }
    }

    /// The position lies within the text, the line count fits, and columns
    /// are measured from an offset no later than the current one.
    pub closed spec fn wf(&self) -> bool {
        &&& self.cur <= self.file@.len()
        &&& self.bol <= self.cur
        &&& 1 <= self.line <= self.cur + 1
        &&& self.file@.len() < usize::MAX
    }

    pub fn new(src: String) -> (r: Self)
        requires
            src@.len() < usize::MAX,
        ensures
            r.wf(),
            r.source() == src@,
            r.pos() == start_pos(),
    {
        let file = chars_of(src.as_str());
        Self { file, cur: 0, bol: 0, line: 1 }
    }

    fn col(&self) -> (r: usize)
        requires
            self.wf(),
        ensures
            r == self.cur - self.bol,
    {
        self.cur - self.bol
    }

    fn cur(&self) -> (r: char)
        requires
            self.cur < self.file@.len(),
        ensures
            r == self.file@[self.cur as int],
    {
        self.file[self.cur]
    }

    fn is_separator(&self, ch: char) -> (r: bool)
        ensures
            r == is_separator_char(ch),
    {
        ch == '{' || ch == '}' || ch == '(' || ch == ')' || ch == '[' || ch == ']'
    }

    fn is_cur_separator(&self) -> (r: bool)
        requires
            self.cur < self.file@.len(),
        ensures
            r == is_separator_char(self.file@[self.cur as int]),
    {
        self.is_separator(self.cur())
    }

    /// Skips whitespace and comments.
    fn skip_whitespace(&mut self)
        requires
            old(self).wf(),
        ensures
            final(self).wf(),
            final(self).file@ == old(self).file@,
            final(self).pos() == skip_blank(old(self).file@, old(self).pos(), false),
            final(self).cur >= old(self).cur,
            final(self).cur < final(self).file@.len() ==> {
                let c = final(self).file@[final(self).cur as int];
                !is_space(c) && c != '#'
            },
    {
        let ghost s = self.file@;
        let ghost p0 = self.pos();
        loop
            invariant
                self.wf(),
                s == old(self).file@,
                p0 == old(self).pos(),
                self.file@ == s,
                self.cur >= p0.cur,
                skip_blank(s, self.pos(), false) == skip_blank(s, p0, false),
            decreases s.len() - self.cur,
        {
            if self.cur >= self.file.len() {
                return;
            }
            let c = self.cur();
            if c == '\n' {
                self.line += 1;
                self.cur += 1;
                self.bol = self.cur;
            } else if is_whitespace(c) {
                self.cur += 1;
            } else if c == '#' {
                self.skip_comment();
            } else {
                return;
            }
        }
    }

    /// Skips a comment up to the line feed that ends it, or to the end.
    fn skip_comment(&mut self)
        requires
            old(self).wf(),
            old(self).cur < old(self).file@.len(),
            old(self).file@[old(self).cur as int] == '#',
        ensures
            final(self).wf(),
            final(self).file@ == old(self).file@,
            final(self).cur > old(self).cur,
            final(self).line == old(self).line,
            final(self).bol == old(self).bol,
            final(self).cur == final(self).file@.len() || final(self).file@[final(self).cur as int]
                == '\n',
            forall|j: int|
                old(self).cur < j < final(self).cur ==> #[trigger] final(self).file@[j] != '\n',
            skip_blank(old(self).file@, final(self).pos(), false) == skip_blank(
                old(self).file@,
                old(self).pos(),
                false,
            ),
    {
        let ghost s = self.file@;
        let ghost p0 = self.pos();
        self.cur += 1;
        while self.cur < self.file.len() && self.cur() != '\n'
            invariant
                self.wf(),
                s == old(self).file@,
                p0 == old(self).pos(),
                self.file@ == s,
                self.cur > p0.cur,
                self.line == p0.line,
                self.bol == p0.bol,
                forall|j: int| p0.cur < j < self.cur ==> #[trigger] s[j] != '\n',
                skip_blank(s, self.pos(), true) == skip_blank(s, p0, false),
            decreases s.len() - self.cur,
        {
            self.cur += 1;
        }
    }

    /// Reads a separator, if the current character is one.
    fn next_separator(&mut self) -> (r: Option<Token>)
        requires
            old(self).wf(),
            old(self).cur < old(self).file@.len(),
        ensures
            final(self).wf(),
            final(self).file@ == old(self).file@,
            ({
                let s = old(self).file@;
                let p = old(self).pos();
                let c = s[p.cur as int];
                if is_separator_char(c) {
                    &&& r matches Some(t)
                    &&& t@ == token_at(KindView::Separator(c), p)
                    &&& final(self).pos() == Pos { cur: p.cur + 1, ..p }
                } else {
                    &&& r is None
                    &&& final(self).pos() == p
                }
            }),
    {
        if !self.is_cur_separator() {
            return None;
        }
        let res = Some(Token::new(TokenKind::Separator(self.cur()), self.line, self.col()));
        self.cur += 1;
        res
    }

    /// Reads a quoted string literal whose quote is the current character.
    fn next_string_literal(&mut self) -> (r: Result<Token, LexError>)
        requires
            old(self).wf(),
            old(self).cur < old(self).file@.len(),
        ensures
            final(self).wf(),
            final(self).file@ == old(self).file@,
            ({
                let s = old(self).file@;
                let p = old(self).pos();
                let t = s[p.cur as int];
                match scan_string(s, t, p.cur + 1) {
                    None => r == Err::<Token, LexError>(
                        LexError::UnterminatedString {
                            line: p.line as usize,
                            col: (p.cur - p.bol) as usize,
                        },
                    ),
                    Some((body, end)) => {
                        &&& r matches Ok(tok)
                        &&& tok@ == token_at(KindView::Literal(seq![t] + body + seq![t]), p)
                        &&& final(self).pos() == Pos { cur: end + 1, ..p }
                    },
                }
            }),
    {
        let ghost s = self.file@;
        let ghost start = self.cur as nat;
        let mut buf: Vec<char> = Vec::new();
        let line = self.line;
        let col = self.col();
        let terminator = self.cur();
        let mut peek = self.cur + 1;
        buf.push(terminator);
        while peek < self.file.len() && self.file[peek] != terminator
            invariant
                self.wf(),
                s == self.file@,
                start == self.cur,
                self.pos() == old(self).pos(),
                s == old(self).file@,
                line == self.line,
                col == self.cur - self.bol,
                terminator == s[start as int],
                start + 1 <= peek <= s.len(),
                buf@.len() >= 1,
                buf@[0] == terminator,
                scan_string(s, terminator, start + 1) == with_prefix(
                    buf@.drop_first(),
                    scan_string(s, terminator, peek as nat),
                ),
            decreases s.len() - peek,
        {
            let ghost before = buf@;
            let ch = self.file[peek];
            if ch == '\\' {
                if peek + 1 >= self.file.len() {
                    assert(scan_string(s, terminator, peek as nat) is None);
                    return Err(LexError::UnterminatedString { line, col });
                }
                peek += 1;
                let next = self.file[peek];
                if next == 'n' {
                    buf.push('\n');
                } else if next == 'r' {
                    buf.push('\r');
                } else {
                    buf.push(next);
                }
            } else {
                buf.push(ch);
            }
            peek += 1;
            assert(buf@.drop_first() == before.drop_first() + seq![buf@.last()]);
            assert forall|r: Option<(Seq<char>, nat)>| with_prefix(before.drop_first(), with_prefix(seq![buf@.last()], r)) == with_prefix(buf@.drop_first(), r) by {
                match r {
                    Some((x, e)) => {
                        assert(before.drop_first() + (seq![buf@.last()] + x) == buf@.drop_first() + x);
                    },
                    None => {},
                }
            }
        }
        if peek >= self.file.len() {
            return Err(LexError::UnterminatedString { line, col });
        }
        buf.push(terminator);
        self.cur = peek + 1;
        let string = string_of(&buf);
        proof {
            let body = scan_string(s, terminator, start + 1)->Some_0;
            assert(buf@ == seq![terminator] + body.0 + seq![terminator]);
        }
        Ok(Token::new(TokenKind::Literal(string), line, col))
    }

    /// The end of the run of characters from `from` that holds no whitespace
    /// and no separator, and the characters of that run.
    fn scan_run(&self, from: usize) -> (r: (usize, Vec<char>))
        requires
            self.wf(),
            from <= self.file@.len(),
        ensures
            r.0 == run_end(self.file@, from as nat),
            from <= r.0 <= self.file@.len(),
            from < self.file@.len() && !is_space(self.file@[from as int])
                && !is_separator_char(self.file@[from as int]) ==> r.0 > from,
            r.1@ == self.file@.subrange(from as int, r.0 as int),
    {
        let mut buf: Vec<char> = Vec::new();
        let mut peek = from;
        while peek < self.file.len() && !is_whitespace(self.file[peek])
            && !self.is_separator(self.file[peek])
            invariant
                from <= peek <= self.file@.len(),
                run_end(self.file@, from as nat) == run_end(self.file@, peek as nat),
                buf@ == self.file@.subrange(from as int, peek as int),
            decreases self.file@.len() - peek,
        {
            buf.push(self.file[peek]);
            peek += 1;
            assert(buf@ == self.file@.subrange(from as int, peek as int));
        }
        (peek, buf)
    }

    /// Reads a literal: a quoted string, or a run whose lowercased text
    /// reads as a literal. Consumes nothing where the run is no literal.
    fn next_literal(&mut self) -> (r: Result<Option<Token>, LexError>)
        requires
            old(self).wf(),
            old(self).cur < old(self).file@.len(),
        ensures
            final(self).wf(),
            final(self).file@ == old(self).file@,
            ({
                let s = old(self).file@;
                let p = old(self).pos();
                let c = s[p.cur as int];
                let e = run_end(s, p.cur);
                let word = lower_of(s.subrange(p.cur as int, e as int));
                if c == '"' || c == '\'' {
                    match scan_string(s, c, p.cur + 1) {
                        None => r == Err::<Option<Token>, LexError>(
                            LexError::UnterminatedString {
                                line: p.line as usize,
                                col: (p.cur - p.bol) as usize,
                            },
                        ),
                        Some((body, end)) => {
                            &&& r matches Ok(Some(tok))
                            &&& tok@ == token_at(KindView::Literal(seq![c] + body + seq![c]), p)
                            &&& final(self).pos() == Pos { cur: end + 1, ..p }
                        },
                    }
                } else if is_literal_text(word) {
                    &&& r matches Ok(Some(tok))
                    &&& tok@ == token_at(KindView::Literal(word), p)
                    &&& final(self).pos() == Pos { cur: e, ..p }
                } else {
                    &&& r matches Ok(None)
                    &&& final(self).pos() == p
                }
            }),
            ({
                let c = old(self).file@[old(self).cur as int];
                !is_separator_char(c) && (c == '-' || is_digit(c)) ==> r matches Ok(Some(_))
            }),
    {
        let line = self.line;
        let col = self.col();
        if self.cur() == '"' || self.cur() == '\'' {
            return match self.next_string_literal() {
                Ok(tok) => Ok(Some(tok)),
                Err(e) => Err(e),
            };
        }
        let (peek, buf) = self.scan_run(self.cur);
        let raw = string_of(&buf);
        let string = lowercase(raw.as_str());
        if !is_literal_word(string.as_str()) {
            return Ok(None);
        }
        self.cur = peek;
        Ok(Some(Token::new(TokenKind::Literal(string), line, col)))
    }

    /// Reads a variable reference, if the current character is the sigil.
    fn next_ident(&mut self) -> (r: Option<Token>)
        requires
            old(self).wf(),
            old(self).cur < old(self).file@.len(),
        ensures
            final(self).wf(),
            final(self).file@ == old(self).file@,
            ({
                let s = old(self).file@;
                let p = old(self).pos();
                let f = run_end(s, p.cur + 1);
                if s[p.cur as int] == '$' {
                    &&& r matches Some(tok)
                    &&& tok@ == token_at(KindView::Ident(s.subrange(p.cur + 1 as int, f as int)), p)
                    &&& final(self).pos() == Pos { cur: f, ..p }
                } else {
                    &&& r is None
                    &&& final(self).pos() == p
                }
            }),
    {
        if self.cur() != '$' {
            return None;
        }
        let line = self.line;
        let col = self.col();
        let (end, buf) = self.scan_run(self.cur + 1);
        self.cur = end;
        Some(Token::new(TokenKind::Ident(string_of(&buf)), line, col))
    }

    /// Reads a bare key: the run from the current character.
    fn next_key(&mut self) -> (r: Token)
        requires
            old(self).wf(),
            old(self).cur < old(self).file@.len(),
        ensures
            final(self).wf(),
            final(self).file@ == old(self).file@,
            ({
                let s = old(self).file@;
                let p = old(self).pos();
                let e = run_end(s, p.cur);
                &&& r@ == token_at(KindView::Key(s.subrange(p.cur as int, e as int)), p)
                &&& final(self).pos() == Pos { cur: e, ..p }
            }),
    {
        let line = self.line;
        let col = self.col();
        let (end, buf) = self.scan_run(self.cur);
        self.cur = end;
        Token::new(TokenKind::Key(string_of(&buf)), line, col)
    }

    /// Skips whitespace and comments, then reads the next token, if any.
    fn next_token(&mut self) -> (r: Result<Option<Token>, LexError>)
        requires
            old(self).wf(),
        ensures
            final(self).wf(),
            final(self).file@ == old(self).file@,
            r is Ok && old(self).cur < old(self).file@.len() ==> final(self).cur > old(self).cur,
            match r {
                Ok(t) => next_token_spec(old(self).file@, old(self).pos()) == Ok::<
                    (Option<TokenView>, Pos),
                    LexError,
                >((opt_token_view(t), final(self).pos())),
                Err(e) => next_token_spec(old(self).file@, old(self).pos()) == Err::<
                    (Option<TokenView>, Pos),
                    LexError,
                >(e),
            },
    {
        self.skip_whitespace();
        if self.cur >= self.file.len() {
            return Ok(None);
        }
        proof {
            lemma_run_end(self.file@, self.cur as nat);
            lemma_run_end(self.file@, (self.cur + 1) as nat);
            lemma_scan_string_end(self.file@, self.file@[self.cur as int], (self.cur + 1) as nat);
        }
        if let Some(tok) = self.next_separator() {
            return Ok(Some(tok));
        }
        match self.next_literal() {
            Err(e) => return Err(e),
            Ok(Some(tok)) => return Ok(Some(tok)),
            Ok(None) => {},
        }
        if let Some(tok) = self.next_ident() {
            return Ok(Some(tok));
        }
        Ok(Some(self.next_key()))
    }

    /// Tokenizes the rest of the text. Stops once fewer than two characters
    /// are left.
    pub fn lex(&mut self) -> (r: Result<Vec<Token>, LexError>)
        requires
            old(self).wf(),
        ensures
            final(self).wf(),
            final(self).source() == old(self).source(),
            match r {
                Ok(v) => lex_from(old(self).source(), old(self).pos()) == Ok::<
                    Seq<TokenView>,
                    LexError,
                >(tokens_view(v@)),
                Err(e) => lex_from(old(self).source(), old(self).pos()) == Err::<
                    Seq<TokenView>,
                    LexError,
                >(e),
            },
    {
        let ghost s = self.file@;
        let ghost p0 = self.pos();
        let mut tokens: Vec<Token> = Vec::new();
        while self.cur + 1 < self.file.len()
            invariant
                self.wf(),
                s == old(self).file@,
                p0 == old(self).pos(),
                self.file@ == s,
                lex_from(s, p0) == prepend_tokens(tokens_view(tokens@), lex_from(s, self.pos())),
            decreases s.len() - self.cur,
        {
            let ghost before = tokens@;
            let ghost p = self.pos();
            match self.next_token() {
                Err(e) => {
                    return Err(e);
                },
                Ok(Some(tok)) => {
                    tokens.push(tok);
                    proof {
                        assert(tokens_view(tokens@) == tokens_view(before) + seq![tok@]);
                        match lex_from(s, self.pos()) {
                            Ok(rest) => {
                                assert(tokens_view(before) + (seq![tok@] + rest) == tokens_view(tokens@) + rest);
                            },
                            Err(_) => {},
                        }
                    }
                },
                Ok(None) => {},
            }
        }
        assert(tokens_view(tokens@) + Seq::<TokenView>::empty() == tokens_view(tokens@));
        Ok(tokens)
    }
}

/// ASCII whitespace, as `char::is_ascii_whitespace` has it.
pub fn is_whitespace(c: char) -> (r: bool)
    ensures
        r == is_space(c),
{
    c == ' ' || c == '\t' || c == '\n' || c == '\x0C' || c == '\r'
}

/// Tokens that agree with `b` but for standing one line lower.
pub open spec fn line_shifted(a: Seq<TokenView>, b: Seq<TokenView>) -> bool {
    &&& a.len() == b.len()
    &&& forall|i: int|
        0 <= i < a.len() ==> {
            &&& #[trigger] a[i].kind == b[i].kind
            &&& a[i].line == b[i].line + 1
            &&& a[i].col == b[i].col
        }
}

/// Both tokenizations fail, or both succeed one line apart.
pub open spec fn results_shifted(r1: Result<Seq<TokenView>, LexError>, r2: Result<Seq<TokenView>, LexError>) -> bool {
    match (r1, r2) {
        (Ok(a), Ok(b)) => line_shifted(a, b),
        (Err(_), Err(_)) => true,
        _ => false,
    }
}

/// `big` is `s` with `k` characters before it.
pub open spec fn has_suffix_at(big: Seq<char>, s: Seq<char>, k: nat) -> bool {
    &&& big.len() == s.len() + k
    &&& forall|i: int| 0 <= i < s.len() ==> #[trigger] big[i + k as int] == s[i]
}

/// `p` moved `k` characters on and one line down.
pub open spec fn shift_pos(p: Pos, k: nat) -> Pos {
    Pos { cur: p.cur + k, line: p.line + 1, bol: p.bol + k }
}

proof fn lemma_shift_skip(big: Seq<char>, s: Seq<char>, k: nat, p: Pos, m: bool)
    requires
        has_suffix_at(big, s, k),
    ensures
        skip_blank(big, shift_pos(p, k), m) == shift_pos(skip_blank(s, p, m), k),
    decreases s.len() - p.cur,
{
    if p.cur < s.len() {
        assert(big[p.cur + k as int] == s[p.cur as int]);
        let c = s[p.cur as int];
        if c == '\n' {
            lemma_shift_skip(big, s, k, Pos { cur: p.cur + 1, line: p.line + 1, bol: p.cur + 1 }, false);
        } else if m || is_space(c) {
            lemma_shift_skip(big, s, k, Pos { cur: p.cur + 1, ..p }, m);
        } else if c == '#' {
            lemma_shift_skip(big, s, k, Pos { cur: p.cur + 1, ..p }, true);
        }
    }
}

proof fn lemma_shift_run(big: Seq<char>, s: Seq<char>, k: nat, i: nat)
    requires
        has_suffix_at(big, s, k),
    ensures
        run_end(big, i + k) == run_end(s, i) + k,
    decreases s.len() - i,
{
    if i < s.len() {
        assert(big[i + k as int] == s[i as int]);
        lemma_shift_run(big, s, k, i + 1);
    }
}

proof fn lemma_shift_scan(big: Seq<char>, s: Seq<char>, k: nat, t: char, i: nat)
    requires
        has_suffix_at(big, s, k),
    ensures
        scan_string(big, t, i + k) == match scan_string(s, t, i) {
            Some((b, e)) => Some((b, e + k)),
            None => None::<(Seq<char>, nat)>,
        },
    decreases s.len() - i,
{
    if i < s.len() {
        assert(big[i + k as int] == s[i as int]);
        if i + 1 < s.len() {
            assert(big[i + 1 + k as int] == s[i + 1 as int]);
        }
        lemma_shift_scan(big, s, k, t, i + 1);
        if i + 1 < s.len() {
            lemma_shift_scan(big, s, k, t, i + 2);
        }
    }
}

/// Where whitespace skipping stops.
proof fn lemma_skip_stop(s: Seq<char>, p: Pos, m: bool)
    requires
        p.cur <= s.len(),
    ensures
        p.cur <= skip_blank(s, p, m).cur <= s.len(),
        skip_blank(s, p, m).cur < s.len() ==> {
            let c = s[skip_blank(s, p, m).cur as int];
            !is_space(c) && c != '#'
        },
    decreases s.len() - p.cur,
{
    if p.cur < s.len() {
        let c = s[p.cur as int];
        if c == '\n' {
            lemma_skip_stop(s, Pos { cur: p.cur + 1, line: p.line + 1, bol: p.cur + 1 }, false);
        } else if m || is_space(c) {
            lemma_skip_stop(s, Pos { cur: p.cur + 1, ..p }, m);
        } else if c == '#' {
            lemma_skip_stop(s, Pos { cur: p.cur + 1, ..p }, true);
        }
    }
}

/// Every token read moves forward and stays within the text.
proof fn lemma_next_token_progress(s: Seq<char>, p: Pos)
    requires
        p.cur < s.len(),
    ensures
        next_token_spec(s, p) matches Ok((_, q)) ==> p.cur < q.cur <= s.len(),
{
    let q = skip_blank(s, p, false);
    lemma_skip_stop(s, p, false);
    if q.cur < s.len() {
        lemma_run_end(s, q.cur);
        lemma_run_end(s, q.cur + 1);
        lemma_scan_string_end(s, s[q.cur as int], q.cur + 1);
    }
}

proof fn lemma_shift_next_token(big: Seq<char>, s: Seq<char>, k: nat, p: Pos)
    requires
        has_suffix_at(big, s, k),
    ensures
        match (next_token_spec(big, shift_pos(p, k)), next_token_spec(s, p)) {
            (Ok((t1, q1)), Ok((t2, q2))) => {
                &&& q1 == shift_pos(q2, k)
                &&& match (t1, t2) {
                    (Some(x), Some(y)) => x.kind == y.kind && x.line == y.line + 1 && x.col == y.col,
                    (None, None) => true,
                    _ => false,
                }
            },
            (Err(_), Err(_)) => true,
            _ => false,
        },
{
    let q = skip_blank(s, p, false);
    lemma_shift_skip(big, s, k, p, false);
    if q.cur < s.len() {
        let c = s[q.cur as int];
        assert(big[q.cur + k as int] == c);
        let e = run_end(s, q.cur);
        lemma_shift_run(big, s, k, q.cur);
        lemma_shift_run(big, s, k, q.cur + 1);
        lemma_shift_scan(big, s, k, c, q.cur + 1);
        lemma_run_end(s, q.cur);
        lemma_run_end(s, q.cur + 1);
        lemma_shift_subrange(big, s, k, q.cur as int, e as int);
        if q.cur + 1 < s.len() {
            lemma_shift_subrange(big, s, k, q.cur + 1 as int, run_end(s, q.cur + 1) as int);
        } else {
            lemma_shift_subrange(big, s, k, q.cur + 1 as int, q.cur + 1 as int);
        }
    }
}

proof fn lemma_shift_subrange(big: Seq<char>, s: Seq<char>, k: nat, a: int, b: int)
    requires
        has_suffix_at(big, s, k),
        0 <= a <= b <= s.len(),
    ensures
        big.subrange(a + k, b + k) == s.subrange(a, b),
{
    assert forall|j: int| 0 <= j < b - a implies big.subrange(a + k, b + k)[j] == s.subrange(a, b)[j] by {
        let i = a + j;
        assert(big[i + k] == s[i]);
    }
    assert(big.subrange(a + k, b + k) =~= s.subrange(a, b));
}

proof fn lemma_shift_lex(big: Seq<char>, s: Seq<char>, k: nat, p: Pos)
    requires
        has_suffix_at(big, s, k),
    ensures
        results_shifted(lex_from(big, shift_pos(p, k)), lex_from(s, p)),
    decreases s.len() - p.cur,
{
    if p.cur + 1 < s.len() {
        lemma_shift_next_token(big, s, k, p);
        lemma_next_token_progress(s, p);
        if let Ok((t2, q2)) = next_token_spec(s, p) {
            lemma_shift_lex(big, s, k, q2);
            let r1 = lex_from(big, shift_pos(q2, k));
            let r2 = lex_from(s, q2);
            if let (Ok(a), Ok(b)) = (r1, r2) {
                if let (Some(x), Some(y)) = (next_token_spec(big, shift_pos(p, k))->Ok_0.0, t2) {
                    let a2 = seq![x] + a;
                    let b2 = seq![y] + b;
                    assert forall|i: int| 0 <= i < a2.len() implies {
                        &&& #[trigger] a2[i].kind == b2[i].kind
                        &&& a2[i].line == b2[i].line + 1
                        &&& a2[i].col == b2[i].col
                    } by {
                        if i > 0 {
                            assert(a2[i] == a[i - 1] && b2[i] == b[i - 1]);
                        }
                    }
                }
            }
        }
    } else {
        assert(line_shifted(Seq::empty(), Seq::empty()));
    }
}

proof fn lemma_comment_skip(big: Seq<char>, k: nat, j: nat)
    requires
        1 <= j < k <= big.len(),
        big[k - 1] == '\n',
        forall|i: int| j <= i < k - 1 ==> big[i] != '\n',
    ensures
        skip_blank(big, Pos { cur: j, line: 1, bol: 0 }, true) == skip_blank(
            big,
            Pos { cur: k, line: 2, bol: k },
            false,
        ),
    decreases k - j,
{
    if j < k - 1 {
        lemma_comment_skip(big, k, j + 1);
    }
}

/// A comment line in front of a text changes nothing but the lines: both
/// texts tokenize, or neither does, and the tokens agree but for standing
/// one line lower.
pub proof fn lemma_comment_line_skipped(c: Seq<char>, s: Seq<char>)
    requires
        forall|i: int| 0 <= i < c.len() ==> c[i] != '\n',
        s.len() >= 2,
    ensures
        results_shifted(tokenize(seq!['#'] + c + seq!['\n'] + s), tokenize(s)),
{
    let big = seq!['#'] + c + seq!['\n'] + s;
    let k = c.len() + 2;
    assert(has_suffix_at(big, s, k)) by {
        assert forall|i: int| 0 <= i < s.len() implies #[trigger] big[i + k as int] == s[i] by {}
    }
    assert forall|i: int| 1 <= i < k - 1 implies big[i] != '\n' by {
        assert(big[i] == c[i - 1]);
    }
    lemma_comment_skip(big, k, 1);
    let p0 = start_pos();
    assert(skip_blank(big, p0, false) == skip_blank(big, Pos { cur: 1, line: 1, bol: 0 }, true));
    assert(shift_pos(p0, k) == Pos { cur: k, line: 2, bol: k });
    assert(next_token_spec(big, p0) == next_token_spec(big, shift_pos(p0, k)));
    lemma_shift_lex(big, s, k, p0);
    lemma_shift_next_token(big, s, k, p0);
    lemma_next_token_progress(s, p0);
}

} // verus!
