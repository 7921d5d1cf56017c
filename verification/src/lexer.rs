//! Tokenizer for the query language.
//!
//! Every token carries the column at which it started, counted in characters
//! from 1, so that an error can point into the query.

use crate::decimal::{
    digits_end, nat_text, number_in, plain_text, push_nat, push_plain, read_number, sign_at,
    skip_digits,
};
use crate::json::{bool_text, push_bool, push_text};
use crate::num::Num;
use crate::text::{
    alphabetic, chars_between, chars_of, digit, is_digit, is_space, lower_chars, lower_text, space,
    string_of,
};
use crate::timeutil::{duration_in, is_unit, is_word, parse_duration_chars, unit};
use vstd::prelude::*;

verus! {

#[derive(Debug, PartialEq)]
pub enum TokenKind {
    Select,
    Where,
    Group,
    Having,
    Order,
    By,
    Asc,
    Desc,
    Limit,
    And,
    Or,
    Not,
    Like,
    As,
    /// A field path such as `level` or `user.id`, with its dots.
    Ident(String),
    /// A string literal, already unescaped.
    Str(String),
    Num(Num),
    /// A duration literal such as `15m`, in seconds.
    Duration(Num),
    Bool(bool),
    Null,
    Star,
    Comma,
    LParen,
    RParen,
    Plus,
    Minus,
    Eq,
    Ne,
    Lt,
    Le,
    Gt,
    Ge,
    /// End of input. Always the final token.
    Eof,
}

/// What a token is, its text taken as characters.
pub enum Kind {
    Select,
    Where,
    Group,
    Having,
    Order,
    By,
    Asc,
    Desc,
    Limit,
    And,
    Or,
    Not,
    Like,
    As,
    Ident(Seq<char>),
    Str(Seq<char>),
    Num(Num),
    Duration(Num),
    Bool(bool),
    Null,
    Star,
    Comma,
    LParen,
    RParen,
    Plus,
    Minus,
    Eq,
    Ne,
    Lt,
    Le,
    Gt,
    Ge,
    Eof,
}

impl View for TokenKind {
    type V = Kind;

    open spec fn view(&self) -> Kind {
        match self {
            TokenKind::Select => Kind::Select,
            TokenKind::Where => Kind::Where,
            TokenKind::Group => Kind::Group,
            TokenKind::Having => Kind::Having,
            TokenKind::Order => Kind::Order,
            TokenKind::By => Kind::By,
            TokenKind::Asc => Kind::Asc,
            TokenKind::Desc => Kind::Desc,
            TokenKind::Limit => Kind::Limit,
            TokenKind::And => Kind::And,
            TokenKind::Or => Kind::Or,
            TokenKind::Not => Kind::Not,
            TokenKind::Like => Kind::Like,
            TokenKind::As => Kind::As,
            TokenKind::Ident(s) => Kind::Ident(s@),
            TokenKind::Str(s) => Kind::Str(s@),
            TokenKind::Num(n) => Kind::Num(*n),
            TokenKind::Duration(n) => Kind::Duration(*n),
            TokenKind::Bool(b) => Kind::Bool(*b),
            TokenKind::Null => Kind::Null,
            TokenKind::Star => Kind::Star,
            TokenKind::Comma => Kind::Comma,
            TokenKind::LParen => Kind::LParen,
            TokenKind::RParen => Kind::RParen,
            TokenKind::Plus => Kind::Plus,
            TokenKind::Minus => Kind::Minus,
            TokenKind::Eq => Kind::Eq,
            TokenKind::Ne => Kind::Ne,
            TokenKind::Lt => Kind::Lt,
            TokenKind::Le => Kind::Le,
            TokenKind::Gt => Kind::Gt,
            TokenKind::Ge => Kind::Ge,
            TokenKind::Eof => Kind::Eof,
        }
    }
}

/// How an error message names a token.
pub open spec fn kind_text(k: Kind) -> Seq<char> {
    match k {
        Kind::Select => "`select`"@,
        Kind::Where => "`where`"@,
        Kind::Group => "`group`"@,
        Kind::Having => "`having`"@,
        Kind::Order => "`order`"@,
        Kind::By => "`by`"@,
        Kind::Asc => "`asc`"@,
        Kind::Desc => "`desc`"@,
        Kind::Limit => "`limit`"@,
        Kind::And => "`and`"@,
        Kind::Or => "`or`"@,
        Kind::Not => "`not`"@,
        Kind::Like => "`like`"@,
        Kind::As => "`as`"@,
        Kind::Ident(s) => "field `"@ + s + "`"@,
        Kind::Str(s) => "string \""@ + s + "\""@,
        Kind::Num(n) => "number "@ + plain_text(n),
        Kind::Duration(n) => "duration "@ + plain_text(n) + "s"@,
        Kind::Bool(b) => "`"@ + bool_text(b) + "`"@,
        Kind::Null => "`null`"@,
        Kind::Star => "`*`"@,
        Kind::Comma => "`,`"@,
        Kind::LParen => "`(`"@,
        Kind::RParen => "`)`"@,
        Kind::Plus => "`+`"@,
        Kind::Minus => "`-`"@,
        Kind::Eq => "`=`"@,
        Kind::Ne => "`!=`"@,
        Kind::Lt => "`<`"@,
        Kind::Le => "`<=`"@,
        Kind::Gt => "`>`"@,
        Kind::Ge => "`>=`"@,
        Kind::Eof => "end of query"@,
    }
}

impl TokenKind {
    /// Puts the name of the token behind what a text holds.
    pub fn push_name(&self, out: &mut Vec<char>)
        ensures
            final(out)@ == old(out)@ + kind_text(self@),
    {
        match self {
            TokenKind::Select => push_text(out, "`select`"),
            TokenKind::Where => push_text(out, "`where`"),
            TokenKind::Group => push_text(out, "`group`"),
            TokenKind::Having => push_text(out, "`having`"),
            TokenKind::Order => push_text(out, "`order`"),
            TokenKind::By => push_text(out, "`by`"),
            TokenKind::Asc => push_text(out, "`asc`"),
            TokenKind::Desc => push_text(out, "`desc`"),
            TokenKind::Limit => push_text(out, "`limit`"),
            TokenKind::And => push_text(out, "`and`"),
            TokenKind::Or => push_text(out, "`or`"),
            TokenKind::Not => push_text(out, "`not`"),
            TokenKind::Like => push_text(out, "`like`"),
            TokenKind::As => push_text(out, "`as`"),
            TokenKind::Ident(s) => {
                push_text(out, "field `");
                push_text(out, s.as_str());
                push_text(out, "`");
            },
            TokenKind::Str(s) => {
                push_text(out, "string \"");
                push_text(out, s.as_str());
                push_text(out, "\"");
            },
            TokenKind::Num(n) => {
                push_text(out, "number ");
                push_plain(out, *n);
            },
            TokenKind::Duration(n) => {
                push_text(out, "duration ");
                push_plain(out, *n);
                push_text(out, "s");
            },
            TokenKind::Bool(b) => {
                push_text(out, "`");
                push_bool(out, *b);
                push_text(out, "`");
            },
            TokenKind::Null => push_text(out, "`null`"),
            TokenKind::Star => push_text(out, "`*`"),
            TokenKind::Comma => push_text(out, "`,`"),
            TokenKind::LParen => push_text(out, "`(`"),
            TokenKind::RParen => push_text(out, "`)`"),
            TokenKind::Plus => push_text(out, "`+`"),
            TokenKind::Minus => push_text(out, "`-`"),
            TokenKind::Eq => push_text(out, "`=`"),
            TokenKind::Ne => push_text(out, "`!=`"),
            TokenKind::Lt => push_text(out, "`<`"),
            TokenKind::Le => push_text(out, "`<=`"),
            TokenKind::Gt => push_text(out, "`>`"),
            TokenKind::Ge => push_text(out, "`>=`"),
            TokenKind::Eof => push_text(out, "end of query"),
        }
        assert(out@ =~= old(out)@ + kind_text(self@));
    }

    /// How an error message names the token.
    pub fn to_string(&self) -> (r: String)
        ensures
            r@ == kind_text(self@),
    {
        let mut out: Vec<char> = Vec::new();
        self.push_name(&mut out);
        assert(out@ =~= kind_text(self@));
        string_of(&out)
    }
}

#[derive(Debug, PartialEq)]
pub struct Token {
    pub kind: TokenKind,
    /// Column of the first character, from 1.
    pub col: usize,
}

/// A token and the column it starts at.
pub struct Tok {
    pub kind: Kind,
    pub col: int,
}

impl View for Token {
    type V = Tok;

    open spec fn view(&self) -> Tok {
        Tok { kind: self.kind@, col: self.col as int }
    }
}

/// The tokens of a list, viewed.
pub open spec fn toks(tokens: Seq<Token>) -> Seq<Tok> {
    Seq::new(tokens.len(), |i: int| tokens[i]@)
}

/// What went wrong in a query, and where.
pub struct Fault {
    pub message: Seq<char>,
    pub col: int,
}

/// A query that could not be read, with what is needed to point into it.
#[derive(Debug, PartialEq)]
pub struct QueryError {
    pub message: String,
    /// The column that the error refers to, from 1.
    pub col: usize,
    /// The query that the error came from.
    pub query: String,
}

/// The text with its tabs turned into spaces.
pub open spec fn untabbed(s: Seq<char>) -> Seq<char> {
    Seq::new(s.len(), |i: int| if s[i] == '\t' { ' ' } else { s[i] })
}

/// A row of spaces.
pub open spec fn spaces(n: int) -> Seq<char> {
    Seq::new(if n < 0 { 0 } else { n as nat }, |i: int| ' ')
}

/// An error with the query below it and a caret under the column.
pub open spec fn caret_diagram(kind: Seq<char>, fault: Fault, query: Seq<char>) -> Seq<char> {
    kind + " error at column "@ + nat_text(fault.col as nat) + ": "@ + fault.message + "\n  "@
        + untabbed(query) + "\n  "@ + spaces(fault.col - 1) + "^"@
}

/// Renders an error with the query below it and a caret under the column.
pub fn render_caret(kind: &str, message: &str, col: usize, query: &str) -> (r: String)
    ensures
        r@ == caret_diagram(kind@, (Fault { message: message@, col: col as int }), query@),
{
    let mut out: Vec<char> = Vec::new();
    push_text(&mut out, kind);
    push_text(&mut out, " error at column ");
    push_nat(&mut out, col as u64);
    push_text(&mut out, ": ");
    push_text(&mut out, message);
    push_text(&mut out, "\n  ");
    let ghost head = out@;
    let shown = chars_of(query);
    let mut i: usize = 0;
    while i < shown.len()
        invariant
            i <= shown@.len(),
            shown@ == query@,
            out@ =~= head + untabbed(query@).take(i as int),
        decreases shown.len() - i,
    {
        out.push(if shown[i] == '\t' { ' ' } else { shown[i] });
        i += 1;
    }
    assert(untabbed(query@).take(i as int) =~= untabbed(query@));
    push_text(&mut out, "\n  ");
    let ghost body = out@;
    let mut n: usize = 1;
    while n < col
        invariant
            n >= 1,
            n <= col || n == 1,
            out@ =~= body + spaces(n - 1),
        decreases col - n,
    {
        out.push(' ');
        n += 1;
    }
    assert(spaces(n - 1) =~= spaces(col - 1));
    push_text(&mut out, "^");
    assert(out@ =~= caret_diagram(kind@, (Fault { message: message@, col: col as int }), query@));
    string_of(&out)
}

impl QueryError {
    pub fn new(message: String, col: usize, query: &str) -> (r: QueryError)
        ensures
            r.message@ == message@,
            r.col == col,
            r.query@ == query@,
    {
        QueryError { message, col, query: query.to_string() }
    }

    /// What went wrong, and where.
    pub open spec fn fault(self) -> Fault {
        Fault { message: self.message@, col: self.col as int }
    }

    /// The error with the query below it and a caret under the column.
    pub fn to_string(&self) -> (r: String)
        ensures
            r@ == caret_diagram("query"@, self.fault(), self.query@),
    {
        render_caret("query", self.message.as_str(), self.col, self.query.as_str())
    }
}

/// Whether a character can start a word.
pub open spec fn ident_start(c: char) -> bool {
    alphabetic(c) || c == '_' || c == '@' || c == '$'
}

/// Whether a character can stand in a word behind its first one.
pub open spec fn ident_continue(c: char) -> bool {
    ident_start(c) || digit(c) || c == '.' || c == '-' || c == '/'
}

pub fn is_ident_start(c: char) -> (r: bool)
    ensures
        r == ident_start(c),
{
    c.is_alphabetic() || c == '_' || c == '@' || c == '$'
}

pub fn is_ident_continue(c: char) -> (r: bool)
    ensures
        r == ident_continue(c),
{
    is_ident_start(c) || is_digit(c) || c == '.' || c == '-' || c == '/'
}

/// Where white space and `--` comments end that start at `i`. A comment runs to
/// the end of its line.
pub open spec fn ignorable_end(s: Seq<char>, i: int, comment: bool) -> int
    decreases s.len() - i,
{
    if i < 0 || i >= s.len() {
        i
    } else if comment {
        ignorable_end(s, i + 1, s[i] != '\n')
    } else if space(s[i]) {
        ignorable_end(s, i + 1, false)
    } else if s[i] == '-' && i + 1 < s.len() && s[i + 1] == '-' {
        ignorable_end(s, i + 1, true)
    } else {
        i
    }
}

/// Where the word ends that starts at `i`.
pub open spec fn word_end(s: Seq<char>, i: int) -> int
    decreases s.len() - i,
{
    if 0 <= i < s.len() && ident_continue(s[i]) {
        word_end(s, i + 1)
    } else {
        i
    }
}

/// Where the number ends that starts at `i`. An `e` belongs to it only where an
/// exponent follows.
pub open spec fn number_end(s: Seq<char>, i: int) -> int {
    let a = digits_end(s, if sign_at(s, i) { i + 1 } else { i });
    let b = if a < s.len() && s[a] == '.' { digits_end(s, a + 1) } else { a };
    if b < s.len() && (s[b] == 'e' || s[b] == 'E') {
        let c = if sign_at(s, b + 1) { b + 2 } else { b + 1 };
        if c < s.len() && digit(s[c]) {
            digits_end(s, c)
        } else {
            b
        }
    } else {
        b
    }
}

/// What a word is: a keyword, in capitals or not, or a field.
pub open spec fn word_kind(word: Seq<char>) -> Kind {
    let w = lower_text(word);
    if w == "select"@ {
        Kind::Select
    } else if w == "where"@ {
        Kind::Where
    } else if w == "group"@ {
        Kind::Group
    } else if w == "having"@ {
        Kind::Having
    } else if w == "order"@ {
        Kind::Order
    } else if w == "by"@ {
        Kind::By
    } else if w == "asc"@ {
        Kind::Asc
    } else if w == "desc"@ {
        Kind::Desc
    } else if w == "limit"@ {
        Kind::Limit
    } else if w == "and"@ {
        Kind::And
    } else if w == "or"@ {
        Kind::Or
    } else if w == "not"@ {
        Kind::Not
    } else if w == "like"@ {
        Kind::Like
    } else if w == "as"@ {
        Kind::As
    } else if w == "true"@ {
        Kind::Bool(true)
    } else if w == "false"@ {
        Kind::Bool(false)
    } else if w == "null"@ {
        Kind::Null
    } else {
        Kind::Ident(word)
    }
}

/// The number or duration that starts at `i`, and where it ends.
pub open spec fn number_at(s: Seq<char>, i: int) -> Result<(Kind, int), Fault> {
    let e = number_end(s, i);
    let w = word_end(s, e);
    match number_in(s.subrange(i, e)) {
        None => Err(
            Fault { message: "invalid number literal `"@ + s.subrange(i, e) + "`"@, col: i + 1 },
        ),
        Some(n) => match duration_in(s.subrange(i, w)) {
            Some(secs) if unit(s.subrange(e, w)) => Ok((Kind::Duration(secs), w)),
            _ => Ok((Kind::Num(n), e)),
        },
    }
}

/// What an escaped character of a string literal stands for. The percent sign
/// keeps its backslash, which says to `like` that it is no wildcard.
pub open spec fn unescaped(c: char) -> Option<Seq<char>> {
    if c == 'n' {
        Some(seq!['\n'])
    } else if c == 't' {
        Some(seq!['\t'])
    } else if c == 'r' {
        Some(seq!['\r'])
    } else if c == '0' {
        Some(seq!['\0'])
    } else if c == '\\' || c == '\'' || c == '"' {
        Some(seq![c])
    } else if c == '%' {
        Some(seq!['\\', '%'])
    } else {
        None
    }
}

/// The rest of a string literal from `i` on, `text` of it having been read: the
/// whole text and where the literal ends.
pub open spec fn string_from(
    s: Seq<char>,
    i: int,
    quote: char,
    open: int,
    text: Seq<char>,
) -> Result<
    (Seq<char>, int),
    Fault,
>
    decreases s.len() - i,
{
    if i < 0 || i >= s.len() {
        Err(
            Fault {
                message: "unterminated string literal, expected closing `"@ + seq![quote] + "`"@,
                col: open,
            },
        )
    } else if s[i] == quote {
        Ok((text, i + 1))
    } else if s[i] == '\\' {
        if i + 1 >= s.len() {
            Err(Fault { message: "unterminated escape sequence"@, col: i + 2 })
        } else {
            match unescaped(s[i + 1]) {
                Some(x) => string_from(s, i + 2, quote, open, text + x),
                None => Err(
                    Fault { message: "unknown escape `\\"@ + seq![s[i + 1]] + "`"@, col: i + 2 },
                ),
            }
        }
    } else {
        string_from(s, i + 1, quote, open, text.push(s[i]))
    }
}

/// Whether a character stands at `i`.
pub open spec fn char_at(s: Seq<char>, i: int, c: char) -> bool {
    0 <= i < s.len() && s[i] == c
}

/// The token that starts at `i`, and where it ends.
#[verifier::opaque]
pub open spec fn token_at(s: Seq<char>, i: int) -> Result<(Kind, int), Fault> {
    let c = s[i];
    let digit_next = i + 1 < s.len() && digit(s[i + 1]);
    if c == '*' {
        Ok((Kind::Star, i + 1))
    } else if c == ',' {
        Ok((Kind::Comma, i + 1))
    } else if c == '(' {
        Ok((Kind::LParen, i + 1))
    } else if c == ')' {
        Ok((Kind::RParen, i + 1))
    } else if c == '=' {
        Ok((Kind::Eq, if char_at(s, i + 1, '=') { i + 2 } else { i + 1 }))
    } else if c == '!' {
        if char_at(s, i + 1, '=') {
            Ok((Kind::Ne, i + 2))
        } else {
            Err(Fault { message: "expected `=` after `!`"@, col: i + 2 })
        }
    } else if c == '<' {
        if char_at(s, i + 1, '=') {
            Ok((Kind::Le, i + 2))
        } else if char_at(s, i + 1, '>') {
            Ok((Kind::Ne, i + 2))
        } else {
            Ok((Kind::Lt, i + 1))
        }
    } else if c == '>' {
        if char_at(s, i + 1, '=') {
            Ok((Kind::Ge, i + 2))
        } else {
            Ok((Kind::Gt, i + 1))
        }
    } else if c == '\'' || c == '"' {
        match string_from(s, i + 1, c, i + 1, Seq::empty()) {
            Ok((text, e)) => Ok((Kind::Str(text), e)),
            Err(f) => Err(f),
        }
    } else if digit(c) || ((c == '-' || c == '+') && (digit_next || char_at(s, i + 1, '.'))) || (c
        == '.' && digit_next) {
        number_at(s, i)
    } else if c == '+' {
        Ok((Kind::Plus, i + 1))
    } else if c == '-' {
        Ok((Kind::Minus, i + 1))
    } else if ident_start(c) {
        Ok((word_kind(s.subrange(i, word_end(s, i))), word_end(s, i)))
    } else {
        Err(Fault { message: "unexpected character `"@ + seq![c] + "`"@, col: i + 1 })
    }
}

proof fn lemma_digits_end(s: Seq<char>, i: int)
    requires
        0 <= i <= s.len(),
    ensures
        i <= digits_end(s, i) <= s.len(),
        i < s.len() && digit(s[i]) ==> i < digits_end(s, i),
    decreases s.len() - i,
{
    if i < s.len() && digit(s[i]) {
        lemma_digits_end(s, i + 1);
    }
}

proof fn lemma_word_end(s: Seq<char>, i: int)
    requires
        0 <= i <= s.len(),
    ensures
        i <= word_end(s, i) <= s.len(),
        i < s.len() && ident_continue(s[i]) ==> i < word_end(s, i),
    decreases s.len() - i,
{
    if i < s.len() && ident_continue(s[i]) {
        lemma_word_end(s, i + 1);
    }
}

pub proof fn lemma_ignorable_end(s: Seq<char>, i: int, comment: bool)
    requires
        0 <= i <= s.len(),
    ensures
        i <= ignorable_end(s, i, comment) <= s.len(),
    decreases s.len() - i,
{
    if i < s.len() {
        lemma_ignorable_end(s, i + 1, s[i] != '\n');
        lemma_ignorable_end(s, i + 1, false);
        lemma_ignorable_end(s, i + 1, true);
    }
}

proof fn lemma_number_end(s: Seq<char>, i: int)
    requires
        0 <= i < s.len(),
    ensures
        i <= number_end(s, i) <= s.len(),
        digit(s[i]) || s[i] == '-' || s[i] == '+' || s[i] == '.' ==> i < number_end(s, i),
{
    let start = if sign_at(s, i) { i + 1 } else { i };
    lemma_digits_end(s, start);
    let a = digits_end(s, start);
    if a < s.len() && s[a] == '.' {
        lemma_digits_end(s, a + 1);
    }
    let b = if a < s.len() && s[a] == '.' { digits_end(s, a + 1) } else { a };
    if b < s.len() && (s[b] == 'e' || s[b] == 'E') {
        let c = if sign_at(s, b + 1) { b + 2 } else { b + 1 };
        if c < s.len() {
            lemma_digits_end(s, c);
        }
    }
}

proof fn lemma_string_end(s: Seq<char>, i: int, quote: char, open: int, text: Seq<char>)
    requires
        0 <= i <= s.len(),
        1 <= open <= s.len(),
    ensures
        match string_from(s, i, quote, open, text) {
            Ok((_, e)) => i < e <= s.len(),
            Err(f) => 1 <= f.col <= s.len() + 1,
        },
    decreases s.len() - i,
{
    if i < s.len() && s[i] != quote {
        if s[i] == '\\' {
            if i + 1 < s.len() {
                match unescaped(s[i + 1]) {
                    Some(x) => {
                        lemma_string_end(s, i + 2, quote, open, text + x);
                    },
                    None => {},
                }
            }
        } else {
            lemma_string_end(s, i + 1, quote, open, text.push(s[i]));
        }
    }
}

/// A token ends behind where it starts, and an error stands in the query or
/// right behind it.
pub proof fn lemma_token_at(s: Seq<char>, i: int)
    requires
        0 <= i < s.len(),
    ensures
        match token_at(s, i) {
            Ok((kind, e)) => i < e <= s.len() && kind !is Eof,
            Err(f) => 1 <= f.col <= s.len() + 1,
        },
{
    reveal(token_at);
    lemma_string_end(s, i + 1, s[i], i + 1, Seq::empty());
    lemma_number_end(s, i);
    lemma_word_end(s, number_end(s, i));
    lemma_word_end(s, i);
}

/// The tokens from `i` on behind those before, up to the one that ends the
/// query.
pub open spec fn tokens_from(s: Seq<char>, i: int, before: Seq<Tok>) -> Result<Seq<Tok>, Fault>
    decreases s.len() - i,
        when 0 <= i <= s.len()
{
    let j = ignorable_end(s, i, false);
    proof {
        lemma_ignorable_end(s, i, false);
        if j < s.len() {
            lemma_token_at(s, j);
        }
    }
    if j >= s.len() {
        Ok(before.push(Tok { kind: Kind::Eof, col: j + 1 }))
    } else {
        match token_at(s, j) {
            Ok((kind, e)) => tokens_from(s, e, before.push(Tok { kind, col: j + 1 })),
            Err(f) => Err(f),
        }
    }
}

/// The tokens of a query.
pub open spec fn tokens_of(s: Seq<char>) -> Result<Seq<Tok>, Fault> {
    tokens_from(s, 0, Seq::empty())
}

/// Where the token at `i` ends.
pub open spec fn token_end(s: Seq<char>, i: int) -> int {
    match token_at(s, i) {
        Ok((_, e)) => e,
        Err(_) => i,
    }
}

/// What was typed from the token at one column to the end of the token at
/// another.
pub open spec fn typed(s: Seq<char>, first: int, last: int) -> Seq<char> {
    s.subrange(first - 1, token_end(s, last - 1))
}

/// The state of a pass over a query.
pub struct Lexer<'a> {
    src: &'a str,
    chars: Vec<char>,
    pos: usize,
}

impl<'a> Lexer<'a> {
    /// The characters of the query.
    pub closed spec fn text(&self) -> Seq<char> {
        self.chars@
    }

    /// How many characters have been read.
    pub closed spec fn at(&self) -> int {
        self.pos as int
    }

    /// The state belongs to its query and stands inside it.
    pub closed spec fn wf(&self) -> bool {
        self.chars@ == self.src@ && self.pos <= self.chars@.len() && self.chars@.len() < usize::MAX
    }

    /// At a character of the same query.
    spec fn moved(&self, other: &Lexer<'a>) -> bool {
        self.src == other.src && self.chars == other.chars && self.wf()
    }

    pub fn new(src: &'a str) -> (r: Lexer<'a>)
        requires
            src@.len() < usize::MAX,
        ensures
            r.wf(),
            r.text() == src@,
            r.at() == 0,
    {
        Lexer { src, chars: chars_of(src), pos: 0 }
    }

    /// The next character.
    pub fn peek(&self) -> (r: Option<char>)
        requires
            self.wf(),
        ensures
            r == (if self.at() < self.text().len() { Some(self.text()[self.at()]) } else { None }),
    {
        self.peek_at(0)
    }

    /// The character `offset` places on.
    pub fn peek_at(&self, offset: usize) -> (r: Option<char>)
        requires
            self.wf(),
        ensures
            r == (if self.at() + offset < self.text().len() {
                Some(self.text()[self.at() + offset])
            } else {
                None
            }),
    {
        if offset < self.chars.len() - self.pos {
            Some(self.chars[self.pos + offset])
        } else {
            None
        }
    }

    fn next_is(&self, offset: usize, c: char) -> (r: bool)
        requires
            self.wf(),
        ensures
            r == char_at(self.chars@, self.pos + offset, c),
    {
        match self.peek_at(offset) {
            Some(x) => x == c,
            None => false,
        }
    }

    /// Takes the next character.
    pub fn bump(&mut self) -> (r: Option<char>)
        requires
            old(self).wf(),
        ensures
            final(self).wf(),
            final(self).text() == old(self).text(),
            r == (if old(self).at() < old(self).text().len() {
                Some(old(self).text()[old(self).at()])
            } else {
                None
            }),
            final(self).at() == (if old(self).at() < old(self).text().len() {
                old(self).at() + 1
            } else {
                old(self).at()
            }),
    {
        let c = self.peek();
        if self.pos < self.chars.len() {
            self.pos += 1;
        }
        c
    }

    /// The column of the next character.
    pub fn col(&self) -> (r: usize)
        requires
            self.wf(),
        ensures
            r == self.at() + 1,
    {
        self.pos + 1
    }

    /// An error at a column of the query.
    pub fn err(&self, message: String, col: usize) -> (r: QueryError)
        requires
            self.wf(),
        ensures
            r.fault() == (Fault { message: message@, col: col as int }),
            r.query@ == self.text(),
    {
        QueryError::new(message, col, self.src)
    }

    /// Passes over white space and comments.
    pub fn skip_ignorable(&mut self)
        requires
            old(self).wf(),
        ensures
            final(self).wf(),
            final(self).text() == old(self).text(),
            final(self).at() == ignorable_end(old(self).text(), old(self).at(), false),
    {
        let ghost goal = ignorable_end(self.chars@, self.pos as int, false);
        let mut comment = false;
        while self.pos < self.chars.len() && (comment || is_space(self.chars[self.pos]) || (
        self.chars[self.pos] == '-' && self.next_is(1, '-')))
            invariant
                self.wf(),
                self.chars@ == old(self).chars@,
                self.src == old(self).src,
                goal == ignorable_end(self.chars@, self.pos as int, comment),
            decreases self.chars.len() - self.pos,
        {
            let c = self.chars[self.pos];
            if comment {
                comment = c != '\n';
            } else if !is_space(c) {
                comment = true;
            }
            self.pos += 1;
        }
    }
}

/// A message about a part of a query.
fn message_about(head: &str, part: &[char], tail: &str) -> (r: String)
    ensures
        r@ == head@ + part@ + tail@,
{
    let mut out: Vec<char> = Vec::new();
    push_text(&mut out, head);
    crate::decimal::push_part(&mut out, part, 0, part.len());
    push_text(&mut out, tail);
    assert(part@.subrange(0, part@.len() as int) =~= part@);
    assert(out@ =~= head@ + part@ + tail@);
    string_of(&out)
}

fn char_message(head: &str, c: char, tail: &str) -> (r: String)
    ensures
        r@ == head@ + seq![c] + tail@,
{
    let mut part: Vec<char> = Vec::new();
    part.push(c);
    assert(part@ =~= seq![c]);
    message_about(head, &part, tail)
}

/// What a word is.
fn kind_of_word(word: &[char]) -> (r: TokenKind)
    ensures
        r@ == word_kind(word@),
{
    let w = lower_chars(word);
    if is_word(&w, "select") {
        TokenKind::Select
    } else if is_word(&w, "where") {
        TokenKind::Where
    } else if is_word(&w, "group") {
        TokenKind::Group
    } else if is_word(&w, "having") {
        TokenKind::Having
    } else if is_word(&w, "order") {
        TokenKind::Order
    } else if is_word(&w, "by") {
        TokenKind::By
    } else if is_word(&w, "asc") {
        TokenKind::Asc
    } else if is_word(&w, "desc") {
        TokenKind::Desc
    } else if is_word(&w, "limit") {
        TokenKind::Limit
    } else if is_word(&w, "and") {
        TokenKind::And
    } else if is_word(&w, "or") {
        TokenKind::Or
    } else if is_word(&w, "not") {
        TokenKind::Not
    } else if is_word(&w, "like") {
        TokenKind::Like
    } else if is_word(&w, "as") {
        TokenKind::As
    } else if is_word(&w, "true") {
        TokenKind::Bool(true)
    } else if is_word(&w, "false") {
        TokenKind::Bool(false)
    } else if is_word(&w, "null") {
        TokenKind::Null
    } else {
        TokenKind::Ident(string_of(word))
    }
}

fn find_word_end(s: &[char], i: usize) -> (r: usize)
    requires
        i <= s@.len(),
    ensures
        r == word_end(s@, i as int),
        i <= r <= s@.len(),
{
    let mut j: usize = i;
    while j < s.len() && is_ident_continue(s[j])
        invariant
            i <= j <= s@.len(),
            word_end(s@, i as int) == word_end(s@, j as int),
        decreases s.len() - j,
    {
        j += 1;
    }
    j
}

fn find_number_end(s: &[char], i: usize) -> (r: usize)
    requires
        i < s@.len(),
    ensures
        r == number_end(s@, i as int),
        i <= r <= s@.len(),
{
    let start: usize = if s[i] == '+' || s[i] == '-' {
        i + 1
    } else {
        i
    };
    let a: usize = skip_digits(s, start);
    let b: usize = if a < s.len() && s[a] == '.' {
        skip_digits(s, a + 1)
    } else {
        a
    };
    if b < s.len() && (s[b] == 'e' || s[b] == 'E') {
        let c: usize = if b + 1 < s.len() && (s[b + 1] == '+' || s[b + 1] == '-') {
            b + 2
        } else {
            b + 1
        };
        if c < s.len() && is_digit(s[c]) {
            return skip_digits(s, c);
        }
    }
    b
}

/// Whether a reading of a token is what the query has there.
spec fn token_read(
    lexer: &Lexer,
    start: int,
    r: Result<TokenKind, QueryError>,
    want: Result<(Kind, int), Fault>,
) -> bool {
    match r {
        Ok(kind) => want == Ok::<(Kind, int), Fault>((kind@, lexer.pos as int)),
        Err(e) => want == Err::<(Kind, int), Fault>(e.fault()) && e.query@ == lexer.src@,
    }
}

impl<'a> Lexer<'a> {
    /// Reads a quoted string, of which the opening quote comes next.
    fn lex_string(&mut self) -> (r: Result<TokenKind, QueryError>)
        requires
            old(self).wf(),
            old(self).pos < old(self).chars@.len(),
        ensures
            final(self).moved(old(self)),
            match string_from(
                old(self).chars@,
                old(self).pos + 1,
                old(self).chars@[old(self).pos as int],
                old(self).pos + 1,
                Seq::empty(),
            ) {
                Ok((text, e)) => r matches Ok(k) && k@ == Kind::Str(text) && final(self).pos == e,
                Err(f) => r matches Err(x) && x.fault() == f && x.query@ == old(self).src@,
            },
    {
        let quote = self.chars[self.pos];
        let open: usize = self.pos + 1;
        self.pos += 1;
        let mut text: Vec<char> = Vec::new();
        let ghost goal = string_from(self.chars@, self.pos as int, quote, open as int, text@);
        assert(text@ =~= Seq::<char>::empty());
        loop
            invariant
                self.moved(old(self)),
                1 <= open <= self.chars@.len(),
                goal == string_from(self.chars@, self.pos as int, quote, open as int, text@),
                goal == string_from(
                    old(self).chars@,
                    old(self).pos + 1,
                    old(self).chars@[old(self).pos as int],
                    old(self).pos + 1,
                    Seq::empty(),
                ),
            decreases self.chars.len() - self.pos,
        {
            if self.pos >= self.chars.len() {
                let message = char_message(
                    "unterminated string literal, expected closing `",
                    quote,
                    "`",
                );
                return Err(self.err(message, open));
            }
            let c = self.chars[self.pos];
            if c == quote {
                self.pos += 1;
                return Ok(TokenKind::Str(string_of(&text)));
            }
            if c == '\\' {
                let col: usize = self.pos + 2;
                if self.pos + 1 >= self.chars.len() {
                    let message = "unterminated escape sequence".to_string();
                    return Err(self.err(message, col));
                }
                let x = self.chars[self.pos + 1];
                let ghost before = text@;
                if x == 'n' {
                    text.push('\n');
                } else if x == 't' {
                    text.push('\t');
                } else if x == 'r' {
                    text.push('\r');
                } else if x == '0' {
                    text.push('\0');
                } else if x == '\\' || x == '\'' || x == '"' {
                    text.push(x);
                } else if x == '%' {
                    text.push('\\');
                    text.push('%');
                } else {
                    return Err(self.err(char_message("unknown escape `\\", x, "`"), col));
                }
                assert(text@ =~= before + unescaped(x)->0);
                self.pos += 2;
            } else {
                text.push(c);
                self.pos += 1;
            }
        }
    }

    /// Reads a number, or a duration where a unit follows.
    fn lex_number(&mut self) -> (r: Result<TokenKind, QueryError>)
        requires
            old(self).wf(),
            old(self).pos < old(self).chars@.len(),
        ensures
            final(self).moved(old(self)),
            token_read(
                final(self),
                old(self).pos as int,
                r,
                number_at(old(self).chars@, old(self).pos as int),
            ),
    {
        let start: usize = self.pos;
        let e: usize = find_number_end(&self.chars, start);
        let w: usize = find_word_end(&self.chars, e);
        let literal = chars_between(&self.chars, start, e);
        match read_number(&literal) {
            None => Err(
                self.err(message_about("invalid number literal `", &literal, "`"), start + 1),
            ),
            Some(n) => {
                let whole = chars_between(&self.chars, start, w);
                let tail = chars_between(&self.chars, e, w);
                match parse_duration_chars(&whole) {
                    Some(secs) => {
                        if is_unit(&tail) {
                            self.pos = w;
                            return Ok(TokenKind::Duration(secs));
                        }
                    },
                    None => {},
                }
                self.pos = e;
                Ok(TokenKind::Num(n))
            },
        }
    }

    /// Reads a keyword or a field.
    fn lex_word(&mut self) -> (r: TokenKind)
        requires
            old(self).wf(),
        ensures
            final(self).moved(old(self)),
            final(self).pos == word_end(old(self).chars@, old(self).pos as int),
            r@ == word_kind(old(self).chars@.subrange(old(self).pos as int, final(self).pos as int)),
    {
        let start: usize = self.pos;
        self.pos = find_word_end(&self.chars, start);
        kind_of_word(&chars_between(&self.chars, start, self.pos))
    }

    /// Takes `n` characters as a token.
    fn take(&mut self, n: usize, kind: TokenKind) -> (r: Result<TokenKind, QueryError>)
        requires
            old(self).wf(),
            old(self).pos + n <= old(self).chars@.len(),
        ensures
            final(self).moved(old(self)),
            final(self).pos == old(self).pos + n,
            r == Ok::<TokenKind, QueryError>(kind),
    {
        self.pos += n;
        Ok(kind)
    }

    /// Reads the token that comes next.
    fn next_token(&mut self) -> (r: Result<TokenKind, QueryError>)
        requires
            old(self).wf(),
            old(self).pos < old(self).chars@.len(),
        ensures
            final(self).moved(old(self)),
            token_read(
                final(self),
                old(self).pos as int,
                r,
                token_at(old(self).chars@, old(self).pos as int),
            ),
    {
        proof {
            reveal(token_at);
        }
        let c = self.chars[self.pos];
        let col: usize = self.pos + 1;
        let digit_next = match self.peek_at(1) {
            Some(d) => is_digit(d),
            None => false,
        };
        if c == '*' {
            self.take(1, TokenKind::Star)
        } else if c == ',' {
            self.take(1, TokenKind::Comma)
        } else if c == '(' {
            self.take(1, TokenKind::LParen)
        } else if c == ')' {
            self.take(1, TokenKind::RParen)
        } else if c == '=' {
            if self.next_is(1, '=') {
                self.take(2, TokenKind::Eq)
            } else {
                self.take(1, TokenKind::Eq)
            }
        } else if c == '!' {
            if self.next_is(1, '=') {
                self.take(2, TokenKind::Ne)
            } else {
                let message = "expected `=` after `!`".to_string();
                Err(self.err(message, col + 1))
            }
        } else if c == '<' {
            if self.next_is(1, '=') {
                self.take(2, TokenKind::Le)
            } else if self.next_is(1, '>') {
                self.take(2, TokenKind::Ne)
            } else {
                self.take(1, TokenKind::Lt)
            }
        } else if c == '>' {
            if self.next_is(1, '=') {
                self.take(2, TokenKind::Ge)
            } else {
                self.take(1, TokenKind::Gt)
            }
        } else if c == '\'' || c == '"' {
            self.lex_string()
        } else if is_digit(c) || ((c == '-' || c == '+') && (digit_next || self.next_is(1, '.')))
            || (c == '.' && digit_next) {
            self.lex_number()
        } else if c == '+' {
            self.take(1, TokenKind::Plus)
        } else if c == '-' {
            self.take(1, TokenKind::Minus)
        } else if is_ident_start(c) {
            Ok(self.lex_word())
        } else {
            Err(self.err(char_message("unexpected character `", c, "`"), col))
        }
    }

    /// Reads all the tokens.
    pub fn run(self) -> (r: Result<Vec<Token>, QueryError>)
        requires
            self.wf(),
            self.at() == 0,
        ensures
            match r {
                Ok(tokens) => tokens_of(self.text()) == Ok::<Seq<Tok>, Fault>(toks(tokens@)),
                Err(e) => tokens_of(self.text()) == Err::<Seq<Tok>, Fault>(e.fault()) && e.query@
                    == self.text(),
            },
    {
        let mut lexer = self;
        let ghost text = lexer.chars@;
        let mut out: Vec<Token> = Vec::new();
        assert(toks(out@) =~= Seq::<Tok>::empty());
        loop
            invariant
                lexer.wf(),
                lexer.chars@ == text,
                self.text() == text,
                tokens_of(text) == tokens_from(text, lexer.pos as int, toks(out@)),
            decreases text.len() - lexer.pos,
        {
            proof {
                lemma_ignorable_end(text, lexer.pos as int, false);
            }
            lexer.skip_ignorable();
            let col: usize = lexer.col();
            let ghost before = toks(out@);
            if lexer.pos >= lexer.chars.len() {
                out.push(Token { kind: TokenKind::Eof, col });
                assert(toks(out@) =~= before.push(Tok { kind: Kind::Eof, col: col as int }));
                return Ok(out);
            }
            proof {
                lemma_token_at(text, lexer.pos as int);
            }
            match lexer.next_token() {
                Ok(kind) => {
                    out.push(Token { kind, col });
                    assert(toks(out@) =~= before.push(Tok { kind: kind@, col: col as int }));
                },
                Err(e) => {
                    return Err(e);
                },
            }
        }
    }
}

/// The tokens of a query, the last of which is the end of the query.
pub fn tokenize(query: &str) -> (r: Result<Vec<Token>, QueryError>)
    requires
        query@.len() < usize::MAX,
    ensures
        match r {
            Ok(tokens) => tokens_of(query@) == Ok::<Seq<Tok>, Fault>(toks(tokens@)),
            Err(e) => tokens_of(query@) == Err::<Seq<Tok>, Fault>(e.fault()) && e.query@ == query@,
        },
{
    Lexer::new(query).run()
}

/// What was typed from the token at one column to the end of the token at
/// another.
pub fn typed_text(query: &str, first: usize, last: usize) -> (r: String)
    requires
        query@.len() < usize::MAX,
        1 <= first <= last <= query@.len(),
    ensures
        r@ == typed(query@, first as int, last as int),
{
    let mut lexer = Lexer::new(query);
    lexer.pos = last - 1;
    proof {
        lemma_token_at(query@, last - 1);
    }
    let end: usize = match lexer.next_token() {
        Ok(_) => lexer.pos,
        Err(_) => last - 1,
    };
    let part = chars_between(&lexer.chars, first - 1, end);
    string_of(&part)
}

proof fn lemma_tokens(s: Seq<char>, i: int, before: Seq<Tok>)
    requires
        0 <= i <= s.len(),
        forall|k: int| 0 <= k < before.len() ==> (#[trigger] before[k]).kind !is Eof && 1
            <= before[k].col <= i,
        forall|k: int, l: int| 0 <= k < l < before.len() ==> before[k].col < before[l].col,
    ensures
        match tokens_from(s, i, before) {
            Ok(tokens) => {
                &&& tokens.len() > 0
                &&& tokens.last().kind is Eof
                &&& forall|k: int| 0 <= k < tokens.len() - 1 ==> (#[trigger] tokens[k]).kind !is Eof
                &&& forall|k: int| 0 <= k < tokens.len() ==> 1 <= (#[trigger] tokens[k]).col
                    <= s.len() + 1
                &&& forall|k: int, l: int|
                    0 <= k < l < tokens.len() ==> tokens[k].col < tokens[l].col
            },
            Err(f) => 1 <= f.col <= s.len() + 1,
        },
    decreases s.len() - i,
{
    lemma_ignorable_end(s, i, false);
    let j = ignorable_end(s, i, false);
    if j < s.len() {
        lemma_token_at(s, j);
        match token_at(s, j) {
            Ok((kind, e)) => {
                lemma_tokens(s, e, before.push(Tok { kind, col: j + 1 }));
            },
            Err(_) => {},
        }
    }
}

/// The tokens of a query end with the end of the query, which comes nowhere
/// else; their columns lie in the query or right behind it, and grow.
pub proof fn law_tokens_are_in_order(s: Seq<char>)
    ensures
        tokens_of(s) matches Ok(tokens) ==> {
            &&& tokens.len() > 0
            &&& tokens.last().kind is Eof
            &&& forall|k: int| 0 <= k < tokens.len() - 1 ==> (#[trigger] tokens[k]).kind !is Eof
            &&& forall|k: int| 0 <= k < tokens.len() ==> 1 <= (#[trigger] tokens[k]).col
                <= s.len() + 1
            &&& forall|k: int, l: int| 0 <= k < l < tokens.len() ==> tokens[k].col < tokens[l].col
        },
{
    lemma_tokens(s, 0, Seq::empty());
}

/// Whether one token follows another: each is what the query has at its column,
/// and between the end of the one and the other stand only white space and
/// comments.
pub open spec fn follows(s: Seq<char>, a: Tok, b: Tok) -> bool {
    &&& 1 <= a.col <= s.len()
    &&& token_at(s, a.col - 1) matches Ok((kind, e)) && kind == a.kind && a.col - 1 < e
        && ignorable_end(s, e, false) == b.col - 1
}

proof fn lemma_places(s: Seq<char>, i: int, before: Seq<Tok>)
    requires
        0 <= i <= s.len(),
        forall|k: int, l: int|
            0 <= k && l == k + 1 && l < before.len() ==> #[trigger] follows(
                s,
                before[k],
                before[l],
            ),
        forall|x: Tok|
            before.len() > 0 && x.col - 1 == ignorable_end(s, i, false) ==> #[trigger] follows(
                s,
                before.last(),
                x,
            ),
    ensures
        tokens_from(s, i, before) matches Ok(tokens) ==> forall|k: int, l: int|
            0 <= k && l == k + 1 && l < tokens.len() ==> #[trigger] follows(
                s,
                tokens[k],
                tokens[l],
            ),
    decreases s.len() - i,
{
    lemma_ignorable_end(s, i, false);
    let j = ignorable_end(s, i, false);
    if j < s.len() {
        lemma_token_at(s, j);
        match token_at(s, j) {
            Ok((kind, e)) => {
                let x = Tok { kind, col: j + 1 };
                if before.len() > 0 {
                    assert(follows(s, before.last(), x));
                }
                lemma_places(s, e, before.push(x));
            },
            Err(_) => {},
        }
    } else {
        let x = Tok { kind: Kind::Eof, col: j + 1 };
        if before.len() > 0 {
            assert(follows(s, before.last(), x));
        }
    }
}

/// Each token but the last is what the query has at its column, and between its
/// end and the token behind it stand only white space and comments.
pub proof fn law_tokens_stand_at_their_columns(s: Seq<char>)
    ensures
        tokens_of(s) matches Ok(tokens) ==> forall|k: int, l: int|
            0 <= k && l == k + 1 && l < tokens.len() ==> #[trigger] follows(
                s,
                tokens[k],
                tokens[l],
            ),
{
    lemma_places(s, 0, Seq::empty());
}

/// An error of the tokenizer points into the query or right behind it.
pub proof fn law_token_errors_point_into_the_query(s: Seq<char>)
    ensures
        tokens_of(s) matches Err(f) ==> 1 <= f.col <= s.len() + 1,
{
    lemma_tokens(s, 0, Seq::empty());
}

/// Keywords are keywords in capitals too: what a word is depends on its letters
/// only up to case, but for a field, which keeps them.
pub proof fn law_keywords_ignore_case(a: Seq<char>, b: Seq<char>)
    requires
        lower_text(a) == lower_text(b),
    ensures
        word_kind(a) == word_kind(b) || (word_kind(a) == Kind::Ident(a) && word_kind(b)
            == Kind::Ident(b)),
{
}

} // verus!
