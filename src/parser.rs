use vstd::prelude::*;

use crate::lexer::{eq_word, is_digit, lex_from, next_token_spec, scan_string, skip_blank, start_pos, token_at, tokenize, tokens_view, KindView, LexError, Lexer, Token, TokenKind, TokenView};
use crate::text::{chars_of, string_of};
use crate::value::{
    assoc_get, assoc_insert, entries_view, keys_unique, lemma_array_view,
    lemma_insert_keeps_keys_unique, lemma_table_view, table_get, table_insert, values_view, Val,
    Value,
};

verus! {

/// Why a literal's text is no value.
#[derive(Debug, Clone, Copy, PartialEq, Eq, Structural)]
pub enum LiteralError {
    /// A character that is neither a digit nor a point, or no number at all.
    Invalid,
    /// Two or more decimal points.
    TooManyDecimals,
    /// An integer beyond the range of `i32`.
    OutOfRange,
}

/// A failure of the parser, with the line and column of the token at fault
/// and what it holds.
#[derive(Debug, Clone, PartialEq)]
pub enum ParseError {
    /// The tokens ended where a value or a closing bracket was due.
    UnexpectedEnd,
    /// A token that cannot stand where it stands.
    InvalidToken { token: TokenKind, line: usize, col: usize },
    /// A round bracket: that syntax is reserved.
    Parenthesis { line: usize, col: usize },
    /// A variable that was not bound before.
    InvalidVariable { name: String, line: usize, col: usize },
    /// A literal whose text is no value.
    BadLiteral { error: LiteralError, text: String, line: usize, col: usize },
}

/// The mathematical value of a `ParseError`.
pub enum ParseErrorView {
    UnexpectedEnd,
    InvalidToken { token: KindView, line: usize, col: usize },
    Parenthesis { line: usize, col: usize },
    InvalidVariable { name: Seq<char>, line: usize, col: usize },
    BadLiteral { error: LiteralError, text: Seq<char>, line: usize, col: usize },
}

impl View for ParseError {
    type V = ParseErrorView;

    open spec fn view(&self) -> ParseErrorView {
        match self {
            ParseError::UnexpectedEnd => ParseErrorView::UnexpectedEnd,
            ParseError::InvalidToken { token, line, col } => ParseErrorView::InvalidToken {
                token: token@,
                line: *line,
                col: *col,
            },
            ParseError::Parenthesis { line, col } => ParseErrorView::Parenthesis { line: *line, col: *col },
            ParseError::InvalidVariable { name, line, col } => ParseErrorView::InvalidVariable {
                name: name@,
                line: *line,
                col: *col,
            },
            ParseError::BadLiteral { error, text, line, col } => ParseErrorView::BadLiteral {
                error: *error,
                text: text@,
                line: *line,
                col: *col,
            },
        }
    }
}

/// The offset of the first `t` in `s` from `i` on, or the length of `s`.
pub open spec fn body_end(s: Seq<char>, t: char, i: nat) -> nat
    decreases s.len() - i,
{
    if i < s.len() && s[i as int] != t {
        body_end(s, t, i + 1)
    } else {
        i
    }
}

pub open spec fn is_number_char(c: char) -> bool {
    is_digit(c) || c == '.'
}

/// How many decimal points `s` holds.
pub open spec fn dot_count(s: Seq<char>) -> nat
    decreases s.len(),
{
    if s.len() == 0 {
        0
    } else {
        dot_count(s.drop_last()) + if s.last() == '.' {
            1nat
        } else {
            0nat
        }
    }
}

/// The number that a string of decimal digits denotes.
pub open spec fn digits_value(s: Seq<char>) -> int
    decreases s.len(),
{
    if s.len() == 0 {
        0
    } else {
        digits_value(s.drop_last()) * 10 + (s.last() as int - '0' as int)
    }
}

/// The value of a literal's text. A quoted text gives the characters after
/// its quote up to the next such quote. Then come the words `true`/`yes`,
/// `false`/`no` and `nil`/`null`. Anything else must be digits with at most
/// one point: with one it is a float, else an integer that fits `i32`.
pub open spec fn scalar(t: Seq<char>) -> Result<Val, LiteralError> {
    if t.len() > 0 && (t[0] == '"' || t[0] == '\'') {
        Ok(Val::Str(t.subrange(1, body_end(t, t[0], 1) as int)))
    } else if t == "true"@ || t == "yes"@ {
        Ok(Val::Bool(true))
    } else if t == "false"@ || t == "no"@ {
        Ok(Val::Bool(false))
    } else if t == "nil"@ || t == "null"@ {
        Ok(Val::Null)
    } else {
        number_value(t)
    }
}

/// The value of a literal's text that is neither quoted nor a word.
pub open spec fn number_value(t: Seq<char>) -> Result<Val, LiteralError> {
    if t.len() == 0 || !(forall|i: int| 0 <= i < t.len() ==> is_number_char(t[i])) {
        Err(LiteralError::Invalid)
    } else if dot_count(t) >= 2 {
        Err(LiteralError::TooManyDecimals)
    } else if dot_count(t) == 1 {
        if t.len() > 1 {
            Ok(Val::Float(t))
        } else {
            Err(LiteralError::Invalid)
        }
    } else if digits_value(t) <= i32::MAX {
        Ok(Val::Int(digits_value(t)))
    } else {
        Err(LiteralError::OutOfRange)
    }
}

pub proof fn lemma_dot_count_zero(s: Seq<char>)
    ensures
        dot_count(s) == 0 ==> forall|i: int| 0 <= i < s.len() ==> s[i] != '.',
    decreases s.len(),
{
    if s.len() > 0 {
        lemma_dot_count_zero(s.drop_last());
        assert forall|i: int| 0 <= i < s.len() - 1 implies s[i] == s.drop_last()[i] by {}
    }
}

/// A prefix of a string of digits denotes no more than the whole.
pub proof fn lemma_digits_prefix(s: Seq<char>, j: int)
    requires
        0 <= j <= s.len(),
        forall|i: int| 0 <= i < s.len() ==> is_digit(s[i]),
    ensures
        0 <= digits_value(s.subrange(0, j)) <= digits_value(s),
    decreases s.len(),
{
    if j < s.len() {
        let d = s.drop_last();
        assert forall|i: int| 0 <= i < d.len() implies is_digit(d[i]) by {
            assert(d[i] == s[i]);
        }
        lemma_digits_prefix(d, j);
        lemma_digits_prefix(d, d.len() as int);
        assert(d.subrange(0, j) =~= s.subrange(0, j));
        assert(d.subrange(0, d.len() as int) =~= d);
    } else {
        assert(s.subrange(0, j) =~= s);
        if s.len() > 0 {
            let d = s.drop_last();
            assert forall|i: int| 0 <= i < d.len() implies is_digit(d[i]) by {
                assert(d[i] == s[i]);
            }
            lemma_digits_prefix(d, d.len() as int);
            assert(d.subrange(0, d.len() as int) =~= d);
        }
    }
}

/// The error for token `t` where it cannot stand.
pub open spec fn invalid_token(t: TokenView) -> ParseErrorView {
    ParseErrorView::InvalidToken { token: t.kind, line: t.line as usize, col: t.col as usize }
}

/// The value of the literal token `t` with text `text`.
pub open spec fn literal_value(t: TokenView, text: Seq<char>) -> Result<Val, ParseErrorView> {
    match scalar(text) {
        Ok(v) => Ok(v),
        Err(e) => Err(
            ParseErrorView::BadLiteral { error: e, text, line: t.line as usize, col: t.col as usize },
        ),
    }
}

/// The value bound to `name`, read at token `t`.
pub open spec fn variable_value(vars: Seq<(Seq<char>, Val)>, t: TokenView, name: Seq<char>) -> Result<Val, ParseErrorView> {
    match assoc_get(vars, name) {
        Some(v) => Ok(v),
        None => Err(
            ParseErrorView::InvalidVariable { name, line: t.line as usize, col: t.col as usize },
        ),
    }
}

/// The value that a binding statement gives its variable: the token at `j`
/// must be a literal or a variable.
pub open spec fn bound_value(toks: Seq<TokenView>, j: int, vars: Seq<(Seq<char>, Val)>) -> Result<Val, ParseErrorView>
    recommends
        0 <= j < toks.len(),
{
    match toks[j].kind {
        KindView::Literal(x) => literal_value(toks[j], x),
        KindView::Ident(n) => variable_value(vars, toks[j], n),
        _ => Err(invalid_token(toks[j])),
    }
}

/// The offset of the `}` that closes a table whose body starts at `j`,
/// with `depth` tables open; only braces are counted.
pub open spec fn brace_close(toks: Seq<TokenView>, j: int, depth: nat) -> Option<int>
    decreases toks.len() - j,
{
    if j < 0 || j >= toks.len() {
        None
    } else {
        match toks[j].kind {
            KindView::Separator(c) => if c == '}' {
                if depth <= 1 {
                    Some(j)
                } else {
                    brace_close(toks, j + 1, (depth - 1) as nat)
                }
            } else if c == '{' {
                brace_close(toks, j + 1, depth + 1)
            } else {
                brace_close(toks, j + 1, depth)
            },
            _ => brace_close(toks, j + 1, depth),
        }
    }
}

/// The table that a whole sequence of tokens describes, with no variable
/// bound at the start.
pub open spec fn parse_tokens(toks: Seq<TokenView>) -> Result<Seq<(Seq<char>, Val)>, ParseErrorView>
    decreases toks.len(), toks.len() + 1, 0nat,
{
    statements(toks, 0, Seq::empty(), Seq::empty())
}

/// The table after the statements from offset `i` on, given the variables
/// `vars` and the entries `res` so far. A statement is a key and its value,
/// a variable and the value it binds, or a bracketed value whose result is
/// dropped. (Offsets only move forward; the tests on `e` only make that
/// evident.)
pub open spec fn statements(
    toks: Seq<TokenView>,
    i: int,
    vars: Seq<(Seq<char>, Val)>,
    res: Seq<(Seq<char>, Val)>,
) -> Result<Seq<(Seq<char>, Val)>, ParseErrorView>
    decreases toks.len(), toks.len() - i, 3nat,
{
    if i < 0 || i >= toks.len() {
        Ok(res)
    } else {
        match toks[i].kind {
            KindView::Key(k) => if i + 1 >= toks.len() {
                Err(ParseErrorView::UnexpectedEnd)
            } else {
                match key_value(toks, i + 1, vars) {
                    Err(e) => Err(e),
                    Ok((v, e)) => if i < e < toks.len() {
                        statements(toks, e + 1, vars, assoc_insert(res, k, v))
                    } else {
                        Ok(res)
                    },
                }
            },
            KindView::Ident(n) => if i + 1 >= toks.len() {
                Err(ParseErrorView::UnexpectedEnd)
            } else {
                match bound_value(toks, i + 1, vars) {
                    Err(e) => Err(e),
                    Ok(v) => statements(toks, i + 2, assoc_insert(vars, n, v), res),
                }
            },
            KindView::Separator(c) => match nested(toks, i, c, vars) {
                Err(e) => Err(e),
                Ok((_, e)) => if i <= e < toks.len() {
                    statements(toks, e + 1, vars, res)
                } else {
                    Ok(res)
                },
            },
            KindView::Literal(_) => Err(invalid_token(toks[i])),
        }
    }
}

/// The value that follows a key, at offset `j`, and the offset of its last
/// token.
pub open spec fn key_value(toks: Seq<TokenView>, j: int, vars: Seq<(Seq<char>, Val)>) -> Result<(Val, int), ParseErrorView>
    decreases toks.len(), toks.len() - j, 2nat,
{
    if j < 0 || j >= toks.len() {
        Err(ParseErrorView::UnexpectedEnd)
    } else {
        match toks[j].kind {
            KindView::Literal(x) => match literal_value(toks[j], x) {
                Ok(v) => Ok((v, j)),
                Err(e) => Err(e),
            },
            KindView::Ident(n) => match variable_value(vars, toks[j], n) {
                Ok(v) => Ok((v, j)),
                Err(e) => Err(e),
            },
            KindView::Separator(c) => nested(toks, j, c, vars),
            KindView::Key(_) => Err(invalid_token(toks[j])),
        }
    }
}

/// The value opened by separator `c` at offset `i`, and the offset of the
/// token that closes it. `(` is refused, `[` opens an array, and any other
/// separator a table, whose tokens are parsed on their own, with no
/// variable bound.
pub open spec fn nested(toks: Seq<TokenView>, i: int, c: char, vars: Seq<(Seq<char>, Val)>) -> Result<(Val, int), ParseErrorView>
    decreases toks.len(), toks.len() - i, 1nat,
{
    if i < 0 || i >= toks.len() {
        Err(ParseErrorView::UnexpectedEnd)
    } else if c == '(' {
        Err(ParseErrorView::Parenthesis { line: toks[i].line as usize, col: toks[i].col as usize })
    } else if c == '[' {
        items(toks, i + 1, vars, Seq::empty())
    } else {
        match brace_close(toks, i + 1, 1) {
            None => Err(ParseErrorView::UnexpectedEnd),
            Some(e) => if i < e < toks.len() {
                match parse_tokens(toks.subrange(i + 1, e)) {
                    Ok(t) => Ok((Val::Table(t), e)),
                    Err(er) => Err(er),
                }
            } else {
                Err(ParseErrorView::UnexpectedEnd)
            },
        }
    }
}

/// The rest of an array from offset `j`, with the items `acc` so far: its
/// value and the offset of its `]`.
pub open spec fn items(toks: Seq<TokenView>, j: int, vars: Seq<(Seq<char>, Val)>, acc: Seq<Val>) -> Result<(Val, int), ParseErrorView>
    decreases toks.len(), toks.len() - j, 2nat,
{
    if j < 0 || j >= toks.len() {
        Err(ParseErrorView::UnexpectedEnd)
    } else {
        match toks[j].kind {
            KindView::Separator(c) => if c == ']' {
                Ok((Val::Array(acc), j))
            } else {
                match nested(toks, j, c, vars) {
                    Err(e) => Err(e),
                    Ok((v, e)) => if j <= e < toks.len() {
                        items(toks, e + 1, vars, acc.push(v))
                    } else {
                        Err(ParseErrorView::UnexpectedEnd)
                    },
                }
            },
            KindView::Literal(x) => match literal_value(toks[j], x) {
                Ok(v) => items(toks, j + 1, vars, acc.push(v)),
                Err(e) => Err(e),
            },
            KindView::Ident(n) => match variable_value(vars, toks[j], n) {
                Ok(v) => items(toks, j + 1, vars, acc.push(v)),
                Err(e) => Err(e),
            },
            KindView::Key(_) => Err(invalid_token(toks[j])),
        }
    }
}

/// A parser over a sequence of tokens.
pub struct Parser {
    tokens: Vec<Token>,
    res: Vec<(String, Value)>,
    variables: Vec<(String, Value)>,
    cur: usize,
}

impl Parser {
    /// The tokens being parsed.
    pub closed spec fn tokens(&self) -> Seq<TokenView> {
        tokens_view(self.tokens@)
    }

    /// The entries read so far.
    pub closed spec fn entries(&self) -> Seq<(Seq<char>, Val)> {
        entries_view(self.res@)
    }

    /// The variables bound so far.
    pub closed spec fn vars(&self) -> Seq<(Seq<char>, Val)> {
        entries_view(self.variables@)
    }

    /// The offset of the current token.
    pub closed spec fn position(&self) -> int {
        self.cur as int
    }

    proof fn lemma_tokens_len(&self)
        ensures
            self.tokens().len() == self.tokens@.len(),
    {
    }

    pub fn new(tokens: Vec<Token>) -> (r: Self)
        ensures
            r.tokens() == tokens_view(tokens@),
            r.entries() == Seq::<(Seq<char>, Val)>::empty(),
            r.vars() == Seq::<(Seq<char>, Val)>::empty(),
            r.position() == 0,
    {
        let r = Self { tokens, variables: Vec::new(), res: Vec::new(), cur: 0 };
        assert(entries_view(r.res@) =~= Seq::<(Seq<char>, Val)>::empty());
        assert(entries_view(r.variables@) =~= Seq::<(Seq<char>, Val)>::empty());
        r
    }

    pub fn cur(&self) -> (r: &Token)
        requires
            0 <= self.position() < self.tokens().len(),
        ensures
            r@ == self.tokens()[self.position()],
    {
        &self.tokens[self.cur]
    }

    /// The value of a literal's text.
    pub fn parse_literal(&mut self, str: &str) -> (r: Result<Value, LiteralError>)
        ensures
            final(self).tokens() == old(self).tokens(),
            final(self).entries() == old(self).entries(),
            final(self).vars() == old(self).vars(),
            final(self).position() == old(self).position(),
            r matches Ok(v) ==> scalar(str@) == Ok::<Val, LiteralError>(v@),
            r matches Err(e) ==> scalar(str@) == Err::<Val, LiteralError>(e),
    {
        let cs = chars_of(str);
        let n = cs.len();
        if n > 0 && (cs[0] == '"' || cs[0] == '\'') {
            let terminator = cs[0];
            let mut buf: Vec<char> = Vec::new();
            let mut j: usize = 1;
            while j < n && cs[j] != terminator
                invariant
                    n == cs@.len(),
                    1 <= j <= n,
                    terminator == cs@[0],
                    body_end(cs@, terminator, 1) == body_end(cs@, terminator, j as nat),
                    buf@ == cs@.subrange(1, j as int),
                decreases n - j,
            {
                buf.push(cs[j]);
                j += 1;
                assert(buf@ == cs@.subrange(1, j as int));
            }
            return Ok(Value::String(string_of(&buf)));
        }
        proof {
            reveal_strlit("true");
            reveal_strlit("yes");
            reveal_strlit("false");
            reveal_strlit("no");
            reveal_strlit("nil");
            reveal_strlit("null");
        }
        if eq_word(&cs, "true") || eq_word(&cs, "yes") {
            return Ok(Value::Bool(true));
        } else if eq_word(&cs, "false") || eq_word(&cs, "no") {
            return Ok(Value::Bool(false));
        } else if eq_word(&cs, "nil") || eq_word(&cs, "null") {
            return Ok(Value::Null);
        }
        assert(scalar(str@) == number_value(cs@));
        if n == 0 {
            return Err(LiteralError::Invalid);
        }
        let mut decimals: usize = 0;
        let mut i: usize = 0;
        while i < n
            invariant
                n == cs@.len(),
                n > 0,
                scalar(str@) == number_value(cs@),
                i <= n,
                decimals == dot_count(cs@.subrange(0, i as int)),
                decimals <= i,
                forall|k: int| 0 <= k < i ==> is_number_char(cs@[k]),
            decreases n - i,
        {
            let ch = cs[i];
            if !(ch == '.' || ('0' <= ch && ch <= '9')) {
                return Err(LiteralError::Invalid);
            }
            assert(cs@.subrange(0, i + 1).drop_last() =~= cs@.subrange(0, i as int));
            if ch == '.' {
                decimals += 1;
            }
            i += 1;
        }
        assert(cs@.subrange(0, n as int) =~= cs@);
        if decimals >= 2 {
            return Err(LiteralError::TooManyDecimals);
        } else if decimals == 1 {
            if n > 1 {
                return Ok(Value::Float(string_of(&cs)));
            } else {
                return Err(LiteralError::Invalid);
            }
        }
        proof {
            lemma_dot_count_zero(cs@);
        }
        let mut acc: i64 = 0;
        let mut i: usize = 0;
        while i < n
            invariant
                n == cs@.len(),
                scalar(str@) == number_value(cs@),
                dot_count(cs@) == 0,
                i <= n,
                forall|k: int| 0 <= k < n ==> is_digit(cs@[k]),
                acc == digits_value(cs@.subrange(0, i as int)),
                0 <= acc <= i32::MAX,
            decreases n - i,
        {
            let d = (cs[i] as u32 - '0' as u32) as i64;
            assert(cs@.subrange(0, i + 1).drop_last() =~= cs@.subrange(0, i as int));
            assert(cs@.subrange(0, i + 1).last() == cs@[i as int]);
            acc = acc * 10 + d;
            i += 1;
            assert(acc == digits_value(cs@.subrange(0, i as int)));
            if acc > i32::MAX as i64 {
                proof {
                    lemma_digits_prefix(cs@, i as int);
                }
                return Err(LiteralError::OutOfRange);
            }
        }
        assert(cs@.subrange(0, n as int) =~= cs@);
        Ok(Value::Int(acc as i32))
    }

    /// The value of literal token `tok`, whose text is `text`.
    fn literal_token(&mut self, tok: &Token, text: &str) -> (r: Result<Value, ParseError>)
        ensures
            final(self).tokens() == old(self).tokens(),
            final(self).entries() == old(self).entries(),
            final(self).vars() == old(self).vars(),
            final(self).position() == old(self).position(),
            r matches Ok(v) ==> literal_value(tok@, text@) == Ok::<Val, ParseErrorView>(v@),
            r matches Err(e) ==> literal_value(tok@, text@) == Err::<Val, ParseErrorView>(e@),
    {
        match self.parse_literal(text) {
            Ok(v) => Ok(v),
            Err(e) => Err(
                ParseError::BadLiteral { error: e, text: text.to_owned(), line: tok.line, col: tok.col },
            ),
        }
    }

    /// The error for token `tok` where it cannot stand.
    fn invalid_token_error(tok: &Token) -> (r: ParseError)
        ensures
            r@ == invalid_token(tok@),
    {
        let t = tok.duplicate();
        ParseError::InvalidToken { token: t.kind, line: t.line, col: t.col }
    }

    /// The value bound to `name`, read at token `tok`.
    fn variable(&self, tok: &Token, name: &String) -> (r: Result<Value, ParseError>)
        ensures
            r matches Ok(v) ==> variable_value(self.vars(), tok@, name@) == Ok::<Val, ParseErrorView>(v@),
            r matches Err(e) ==> variable_value(self.vars(), tok@, name@) == Err::<Val, ParseErrorView>(e@),
    {
        match table_get(&self.variables, name) {
            Some(v) => Ok(v.duplicate()),
            None => Err(ParseError::InvalidVariable { name: name.clone(), line: tok.line, col: tok.col }),
        }
    }

    /// The value that a binding statement gives its variable, at the
    /// current token.
    fn parse_bound(&mut self) -> (r: Result<Value, ParseError>)
        requires
            0 <= old(self).position() < old(self).tokens().len(),
        ensures
            final(self).tokens() == old(self).tokens(),
            final(self).entries() == old(self).entries(),
            final(self).vars() == old(self).vars(),
            final(self).position() == old(self).position(),
            r matches Ok(v) ==> bound_value(old(self).tokens(), old(self).position(), old(self).vars())
                == Ok::<Val, ParseErrorView>(v@),
            r matches Err(e) ==> bound_value(old(self).tokens(), old(self).position(), old(self).vars())
                == Err::<Val, ParseErrorView>(e@),
    {
        let tok = self.cur().duplicate();
        match &tok.kind {
            TokenKind::Literal(x) => self.literal_token(&tok, x.as_str()),
            TokenKind::Ident(n) => self.variable(&tok, n),
            _ => Err(Self::invalid_token_error(&tok)),
        }
    }

    /// The value that follows a key, at the current token; the position is
    /// left on its last token.
    fn parse_value(&mut self) -> (r: Result<Value, ParseError>)
        requires
            0 <= old(self).position() < old(self).tokens().len(),
        ensures
            final(self).tokens() == old(self).tokens(),
            final(self).entries() == old(self).entries(),
            final(self).vars() == old(self).vars(),
            match key_value(old(self).tokens(), old(self).position(), old(self).vars()) {
                Ok((v, e)) => {
                    &&& r matches Ok(x)
                    &&& x@ == v
                    &&& final(self).position() == e
                    &&& old(self).position() <= e < old(self).tokens().len()
                },
                Err(er) => r matches Err(x) && x@ == er,
            },
        decreases old(self).tokens().len(), old(self).tokens().len() - old(self).position(), 2nat,
    {
        let tok = self.cur().duplicate();
        match &tok.kind {
            TokenKind::Literal(x) => self.literal_token(&tok, x.as_str()),
            TokenKind::Ident(n) => self.variable(&tok, n),
            TokenKind::Separator(c) => self.parse_sep(*c),
            TokenKind::Key(_) => Err(Self::invalid_token_error(&tok)),
        }
    }

    /// The value opened by separator `ch` at the current token: `(` is
    /// refused, `[` opens an array, and any other separator a table, parsed
    /// by a parser of its own. The position is left on the closing token.
    pub fn parse_sep(&mut self, ch: char) -> (r: Result<Value, ParseError>)
        requires
            0 <= old(self).position() < old(self).tokens().len(),
        ensures
            final(self).tokens() == old(self).tokens(),
            final(self).entries() == old(self).entries(),
            final(self).vars() == old(self).vars(),
            match nested(old(self).tokens(), old(self).position(), ch, old(self).vars()) {
                Ok((v, e)) => {
                    &&& r matches Ok(x)
                    &&& x@ == v
                    &&& final(self).position() == e
                    &&& old(self).position() <= e < old(self).tokens().len()
                },
                Err(er) => r matches Err(x) && x@ == er,
            },
        decreases old(self).tokens().len(), old(self).tokens().len() - old(self).position(), 1nat,
    {
        let ghost toks = self.tokens();
        let ghost vars = self.vars();
        let ghost start = self.cur as int;
        proof {
            self.lemma_tokens_len();
        }
        if ch == '(' {
            let t = self.cur();
            return Err(ParseError::Parenthesis { line: t.line, col: t.col });
        } else if ch == '[' {
            let mut elems: Vec<Value> = Vec::new();
            assert(values_view(elems@) =~= Seq::<Val>::empty());
            loop
                invariant
                    toks == old(self).tokens(),
                    vars == old(self).vars(),
                    start == old(self).position(),
                    ch == '[',
                    self.tokens() == toks,
                    self.tokens@.len() == toks.len(),
                    self.vars() == vars,
                    self.entries() == old(self).entries(),
                    start <= self.cur < toks.len(),
                    nested(toks, start, ch, vars) == items(toks, self.cur + 1, vars, values_view(elems@)),
                decreases toks.len() - self.cur,
            {
                let n = self.tokens.len();
                self.cur += 1;
                if self.cur >= n {
                    return Err(ParseError::UnexpectedEnd);
                }
                let tok = self.cur().duplicate();
                let ghost before = elems@;
                match &tok.kind {
                    TokenKind::Separator(c) => {
                        if *c == ']' {
                            proof {
                                lemma_array_view(elems);
                            }
                            return Ok(Value::Array(elems));
                        }
                        match self.parse_sep(*c) {
                            Ok(v) => elems.push(v),
                            Err(e) => return Err(e),
                        }
                    },
                    TokenKind::Literal(x) => match self.literal_token(&tok, x.as_str()) {
                        Ok(v) => elems.push(v),
                        Err(e) => return Err(e),
                    },
                    TokenKind::Ident(n) => match self.variable(&tok, n) {
                        Ok(v) => elems.push(v),
                        Err(e) => return Err(e),
                    },
                    TokenKind::Key(_) => {
                        return Err(Self::invalid_token_error(&tok));
                    },
                }
                assert(values_view(elems@) =~= values_view(before).push(elems@.last()@));
            }
        } else {
            let mut sub: Vec<Token> = Vec::new();
            let mut depth: usize = 1;
            assert(tokens_view(sub@) =~= toks.subrange(start + 1, start + 1));
            loop
                invariant_except_break
                    start <= self.cur < toks.len(),
                    1 <= depth <= self.cur - start + 1,
                    brace_close(toks, start + 1, 1) == brace_close(toks, self.cur + 1, depth as nat),
                    tokens_view(sub@) == toks.subrange(start + 1, self.cur + 1),
                invariant
                    toks == old(self).tokens(),
                    vars == old(self).vars(),
                    start == old(self).position(),
                    ch != '[' && ch != '(',
                    self.tokens() == toks,
                    self.tokens@.len() == toks.len(),
                    self.vars() == vars,
                    self.entries() == old(self).entries(),
                ensures
                    start < self.cur < toks.len(),
                    brace_close(toks, start + 1, 1) == Some(self.cur as int),
                    tokens_view(sub@) == toks.subrange(start + 1, self.cur as int),
                decreases toks.len() - self.cur,
            {
                let n = self.tokens.len();
                self.cur += 1;
                if self.cur >= n {
                    return Err(ParseError::UnexpectedEnd);
                }
                let tok = self.cur().duplicate();
                if let TokenKind::Separator(c) = &tok.kind {
                    if *c == '}' {
                        if depth == 1 {
                            break;
                        }
                        depth -= 1;
                    } else if *c == '{' {
                        depth += 1;
                    }
                }
                let ghost before = sub@;
                assert(tok@ == toks[self.cur as int]);
                sub.push(tok);
                assert(tokens_view(sub@) =~= tokens_view(before).push(tok@));
                assert(tokens_view(sub@) =~= toks.subrange(start + 1, self.cur + 1));
            }
            assert(sub@.len() < toks.len());
            let inner = Parser::new(sub);
            match inner.parse() {
                Ok(t) => {
                    proof {
                        lemma_table_view(t);
                    }
                    Ok(Value::Table(t))
                },
                Err(e) => Err(e),
            }
        }
    }

    /// Parses the statements from the current token on, and returns the
    /// table they describe.
    pub fn parse(self) -> (r: Result<Vec<(String, Value)>, ParseError>)
        requires
            0 <= self.position() <= self.tokens().len(),
        ensures
            match statements(self.tokens(), self.position(), self.vars(), self.entries()) {
                Ok(t) => {
                    &&& r matches Ok(x)
                    &&& entries_view(x@) == t
                },
                Err(e) => r matches Err(x) && x@ == e,
            },
        decreases self.tokens().len(), self.tokens().len() - self.position(), 3nat,
    {
        let ghost toks = self.tokens();
        proof {
            self.lemma_tokens_len();
        }
        let mut p = self;
        while p.cur < p.tokens.len()
            invariant
                toks == self.tokens(),
                p.tokens() == toks,
                p.tokens@.len() == toks.len(),
                self.position() <= p.cur <= toks.len(),
                statements(toks, p.cur as int, p.vars(), p.entries()) == statements(
                    toks,
                    self.position(),
                    self.vars(),
                    self.entries(),
                ),
            decreases toks.len() - p.cur,
        {
            let tok = p.cur().duplicate();
            match &tok.kind {
                TokenKind::Key(k) => {
                    p.cur += 1;
                    if p.cur >= p.tokens.len() {
                        return Err(ParseError::UnexpectedEnd);
                    }
                    match p.parse_value() {
                        Ok(v) => table_insert(&mut p.res, k.clone(), v),
                        Err(e) => return Err(e),
                    }
                },
                TokenKind::Ident(n) => {
                    p.cur += 1;
                    if p.cur >= p.tokens.len() {
                        return Err(ParseError::UnexpectedEnd);
                    }
                    match p.parse_bound() {
                        Ok(v) => table_insert(&mut p.variables, n.clone(), v),
                        Err(e) => return Err(e),
                    }
                },
                TokenKind::Separator(c) => match p.parse_sep(*c) {
                    Ok(_) => {},
                    Err(e) => return Err(e),
                },
                TokenKind::Literal(_) => {
                    return Err(Self::invalid_token_error(&tok));
                },
            }
            p.cur += 1;
        }
        Ok(p.res)
    }
}

/// A failure to read a source text.
#[derive(Debug, Clone, PartialEq)]
pub enum SourceError {
    Lex(LexError),
    Parse(ParseError),
}

/// The mathematical value of a `SourceError`.
pub enum SourceErrorView {
    Lex(LexError),
    Parse(ParseErrorView),
}

impl View for SourceError {
    type V = SourceErrorView;

    open spec fn view(&self) -> SourceErrorView {
        match self {
            SourceError::Lex(e) => SourceErrorView::Lex(*e),
            SourceError::Parse(e) => SourceErrorView::Parse(e@),
        }
    }
}

/// The table that a source text describes.
pub open spec fn parse_text(s: Seq<char>) -> Result<Seq<(Seq<char>, Val)>, SourceErrorView> {
    match tokenize(s) {
        Err(e) => Err(SourceErrorView::Lex(e)),
        Ok(ts) => match parse_tokens(ts) {
            Ok(t) => Ok(t),
            Err(e) => Err(SourceErrorView::Parse(e)),
        },
    }
}

/// Tokenizes and parses a whole source text.
pub fn parse_source(src: String) -> (r: Result<Vec<(String, Value)>, SourceError>)
    requires
        src@.len() < usize::MAX,
    ensures
        match parse_text(src@) {
            Ok(t) => {
                &&& r matches Ok(x)
                &&& entries_view(x@) == t
            },
            Err(e) => r matches Err(x) && x@ == e,
        },
{
    let mut lexer = Lexer::new(src);
    match lexer.lex() {
        Err(e) => Err(SourceError::Lex(e)),
        Ok(tokens) => match Parser::new(tokens).parse() {
            Ok(t) => Ok(t),
            Err(e) => Err(SourceError::Parse(e)),
        },
    }
}

/// A table opened inside another sees none of the variables bound around
/// it: its value is the same whatever they are.
pub proof fn lemma_table_scope_is_fresh(
    toks: Seq<TokenView>,
    i: int,
    c: char,
    vars1: Seq<(Seq<char>, Val)>,
    vars2: Seq<(Seq<char>, Val)>,
)
    requires
        c != '[',
    ensures
        nested(toks, i, c, vars1) == nested(toks, i, c, vars2),
{
}

/// Parsing is a function of the tokens: two parsers over copies of the same
/// tokens give equal tables, or the same error.
pub proof fn lemma_parse_deterministic(a: Seq<Token>, b: Seq<Token>)
    requires
        tokens_view(a) == tokens_view(b),
    ensures
        parse_tokens(tokens_view(a)) == parse_tokens(tokens_view(b)),
{
}

/// How a character is written inside a quoted string: line feed, carriage
/// return, both quotes and the backslash take a backslash before them.
pub open spec fn escape_char(c: char) -> Seq<char> {
    if c == '\n' {
        seq!['\\', 'n']
    } else if c == '\r' {
        seq!['\\', 'r']
    } else if c == '"' || c == '\'' || c == '\\' {
        seq!['\\', c]
    } else {
        seq![c]
    }
}

/// How a sequence of characters is written inside a quoted string.
pub open spec fn escaped(c: Seq<char>) -> Seq<char>
    decreases c.len(),
{
    if c.len() == 0 {
        Seq::empty()
    } else {
        escape_char(c[0]) + escaped(c.drop_first())
    }
}

proof fn lemma_scan_escaped(s: Seq<char>, t: char, i: int, c: Seq<char>)
    requires
        t == '"' || t == '\'',
        0 <= i,
        i + escaped(c).len() < s.len(),
        s.subrange(i, i + escaped(c).len()) == escaped(c),
        s[i + escaped(c).len()] == t,
    ensures
        scan_string(s, t, i as nat) == Some((c, (i + escaped(c).len()) as nat)),
    decreases c.len(),
{
    if c.len() == 0 {
    } else {
        let ch = c[0];
        let e = escape_char(ch);
        let rest = c.drop_first();
        assert(escaped(c) == e + escaped(rest));
        let k = e.len();
        assert(s.subrange(i + k, i + k + escaped(rest).len()) =~= escaped(rest)) by {
            assert forall|j: int| 0 <= j < escaped(rest).len() implies s[i + k + j] == escaped(rest)[j] by {
                assert(s.subrange(i, i + escaped(c).len())[k + j] == escaped(c)[k + j]);
            }
        }
        assert forall|j: int| 0 <= j < k implies s[i + j] == e[j] by {
            assert(s.subrange(i, i + escaped(c).len())[j] == escaped(c)[j]);
        }
        lemma_scan_escaped(s, t, i + k, rest);
        assert(seq![ch] + rest =~= c);
        if ch == '\n' || ch == '\r' || ch == '"' || ch == '\'' || ch == '\\' {
            assert(s[i] == '\\');
        } else {
            assert(s[i] == ch);
        }
    }
}

proof fn lemma_body_end(x: Seq<char>, t: char, i: nat, k: nat)
    requires
        i <= k < x.len(),
        x[k as int] == t,
        forall|j: int| i <= j < k ==> x[j] != t,
    ensures
        body_end(x, t, i) == k,
    decreases k - i,
{
    if i < k {
        lemma_body_end(x, t, i + 1, k);
    }
}

/// A quoted string written with escapes reads back as what was written: it
/// tokenizes to one literal that holds the characters themselves between
/// its quotes, and that literal resolves to those characters where none of
/// them is the quote.
pub proof fn lemma_escape_round_trip(c: Seq<char>, t: char)
    requires
        t == '"' || t == '\'',
    ensures
        tokenize(seq![t] + escaped(c) + seq![t]) == Ok::<Seq<TokenView>, LexError>(
            seq![TokenView { kind: KindView::Literal(seq![t] + c + seq![t]), line: 1, col: 0 }],
        ),
        (forall|j: int| 0 <= j < c.len() ==> c[j] != t) ==> scalar(seq![t] + c + seq![t])
            == Ok::<Val, LiteralError>(Val::Str(c)),
{
    let src = seq![t] + escaped(c) + seq![t];
    let n = escaped(c).len();
    assert(src.subrange(1, 1 + n as int) =~= escaped(c));
    lemma_scan_escaped(src, t, 1, c);
    let p = start_pos();
    assert(skip_blank(src, p, false) == p);
    assert(token_at(KindView::Literal(seq![t] + c + seq![t]), p) == TokenView {
        kind: KindView::Literal(seq![t] + c + seq![t]),
        line: 1,
        col: 0,
    });
    let q = crate::lexer::Pos { cur: n + 2, ..p };
    assert(next_token_spec(src, p) == Ok::<(Option<TokenView>, crate::lexer::Pos), LexError>(
        (Some(token_at(KindView::Literal(seq![t] + c + seq![t]), p)), q),
    ));
    assert(lex_from(src, q) == Ok::<Seq<TokenView>, LexError>(Seq::empty()));
    assert(seq![token_at(KindView::Literal(seq![t] + c + seq![t]), p)] + Seq::<TokenView>::empty()
        =~= seq![token_at(KindView::Literal(seq![t] + c + seq![t]), p)]);
    if forall|j: int| 0 <= j < c.len() ==> c[j] != t {
        let x = seq![t] + c + seq![t];
        lemma_body_end(x, t, 1, c.len() + 1);
        assert(x.subrange(1, c.len() + 1 as int) =~= c);
    }
}

proof fn lemma_statements_keys_unique(
    toks: Seq<TokenView>,
    i: int,
    vars: Seq<(Seq<char>, Val)>,
    res: Seq<(Seq<char>, Val)>,
)
    requires
        keys_unique(res),
    ensures
        statements(toks, i, vars, res) matches Ok(t) ==> keys_unique(t),
    decreases toks.len() - i,
{
    if 0 <= i < toks.len() {
        match toks[i].kind {
            KindView::Key(k) => if i + 1 < toks.len() {
                if let Ok((v, e)) = key_value(toks, i + 1, vars) {
                    if i < e < toks.len() {
                        lemma_insert_keeps_keys_unique(res, k, v);
                        lemma_statements_keys_unique(toks, e + 1, vars, assoc_insert(res, k, v));
                    }
                }
            },
            KindView::Ident(n) => if i + 1 < toks.len() {
                if let Ok(v) = bound_value(toks, i + 1, vars) {
                    lemma_statements_keys_unique(toks, i + 2, assoc_insert(vars, n, v), res);
                }
            },
            KindView::Separator(c) => {
                if let Ok((_, e)) = nested(toks, i, c, vars) {
                    if i <= e < toks.len() {
                        lemma_statements_keys_unique(toks, e + 1, vars, res);
                    }
                }
            },
            KindView::Literal(_) => {},
        }
    }
}

/// The table that a parse returns lists each key once: a key written
/// again replaces its value.
pub proof fn lemma_parse_keys_unique(toks: Seq<TokenView>)
    ensures
        parse_tokens(toks) matches Ok(t) ==> keys_unique(t),
{
    lemma_statements_keys_unique(toks, 0, Seq::empty(), Seq::empty());
}

/// A variable bound around a table is not visible inside it: the table
/// `{ k $x }` fails on `$x` whatever variables are bound outside, `x`
/// among them.
pub proof fn lemma_outer_variable_not_visible(
    toks: Seq<TokenView>,
    i: int,
    k: Seq<char>,
    x: Seq<char>,
    vars: Seq<(Seq<char>, Val)>,
)
    requires
        0 <= i,
        i + 3 < toks.len(),
        toks[i].kind == KindView::Separator('{'),
        toks[i + 1].kind == KindView::Key(k),
        toks[i + 2].kind == KindView::Ident(x),
        toks[i + 3].kind == KindView::Separator('}'),
    ensures
        nested(toks, i, '{', vars) == Err::<(Val, int), ParseErrorView>(
            ParseErrorView::InvalidVariable {
                name: x,
                line: toks[i + 2].line as usize,
                col: toks[i + 2].col as usize,
            },
        ),
{
    assert(brace_close(toks, i + 3, 1) == Some(i + 3));
    assert(brace_close(toks, i + 2, 1) == Some(i + 3));
    assert(brace_close(toks, i + 1, 1) == Some(i + 3));
    let sub = toks.subrange(i + 1, i + 3);
    assert(sub[0] == toks[i + 1] && sub[1] == toks[i + 2]);
    assert(assoc_get(Seq::empty(), x) is None);
    assert(statements(sub, 0, Seq::empty(), Seq::empty()) == Err::<Seq<(Seq<char>, Val)>, ParseErrorView>(
        ParseErrorView::InvalidVariable {
            name: x,
            line: toks[i + 2].line as usize,
            col: toks[i + 2].col as usize,
        },
    ));
    assert(key_value(sub, 1, Seq::empty()) == Err::<(Val, int), ParseErrorView>(
        ParseErrorView::InvalidVariable {
            name: x,
            line: toks[i + 2].line as usize,
            col: toks[i + 2].col as usize,
        },
    ));
}

} // verus!
