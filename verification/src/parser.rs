use vstd::prelude::*;
use crate::text::{decimal_text, i32_to_string, debug_quoted, str_debug, call_text, call_string};

verus! {

broadcast use vstd::seq_lib::group_seq_properties;

/// A token of the SQL dialect.
#[derive(Debug, PartialEq, Clone)]
pub enum Token {
    Select,
    From,
    Where,
    Insert,
    Into,
    Values,
    Create,
    Table,
    Delete,
    Identifier(String),
    Number(i32),
    StringLiteral(String),
    Comma,
    OpenParen,
    CloseParen,
    Equals,
    Semicolon,
    Eof,
}

/// A token, with the text of an identifier or a string literal as characters.
pub enum TokenView {
    Select,
    From,
    Where,
    Insert,
    Into,
    Values,
    Create,
    Table,
    Delete,
    Identifier(Seq<char>),
    Number(i32),
    StringLiteral(Seq<char>),
    Comma,
    OpenParen,
    CloseParen,
    Equals,
    Semicolon,
    Eof,
}

impl View for Token {
    type V = TokenView;

    open spec fn view(&self) -> TokenView {
        match self {
            Token::Select => TokenView::Select,
            Token::From => TokenView::From,
            Token::Where => TokenView::Where,
            Token::Insert => TokenView::Insert,
            Token::Into => TokenView::Into,
            Token::Values => TokenView::Values,
            Token::Create => TokenView::Create,
            Token::Table => TokenView::Table,
            Token::Delete => TokenView::Delete,
            Token::Identifier(s) => TokenView::Identifier(s@),
            Token::Number(n) => TokenView::Number(*n),
            Token::StringLiteral(s) => TokenView::StringLiteral(s@),
            Token::Comma => TokenView::Comma,
            Token::OpenParen => TokenView::OpenParen,
            Token::CloseParen => TokenView::CloseParen,
            Token::Equals => TokenView::Equals,
            Token::Semicolon => TokenView::Semicolon,
            Token::Eof => TokenView::Eof,
        }
    }
}

/// `String::push`, trusted: the string's characters become the old ones with
/// `ch` appended.
pub assume_specification[ String::push ](s: &mut String, ch: char)
    ensures
        final(s)@ == old(s)@.push(ch),
;

/// The characters with the Unicode `White_Space` property.
pub open spec fn is_white_space(c: char) -> bool {
    let n = c as u32;
    ||| 9 <= n <= 13
    ||| n == 32
    ||| n == 0x85
    ||| n == 0xA0
    ||| n == 0x1680
    ||| 0x2000 <= n <= 0x200A
    ||| n == 0x2028
    ||| n == 0x2029
    ||| n == 0x202F
    ||| n == 0x205F
    ||| n == 0x3000
}

/// `char::is_whitespace`, trusted: true exactly for the characters with the
/// Unicode `White_Space` property, which `is_white_space` lists.
#[verifier::external_body]
pub(crate) fn char_is_whitespace(c: char) -> (r: bool)
    ensures
        r == is_white_space(c),
{
    c.is_whitespace()
}

/// An ASCII decimal digit.
pub open spec fn is_digit(c: char) -> bool {
    '0' <= c <= '9'
}

/// An ASCII letter.
pub open spec fn is_alpha(c: char) -> bool {
    ('a' <= c <= 'z') || ('A' <= c <= 'Z')
}

/// A character that may continue a word: an ASCII letter or digit, or `_`.
pub open spec fn is_word_char(c: char) -> bool {
    is_digit(c) || is_alpha(c) || c == '_'
}

/// A character that begins a token; every other character is skipped.
pub open spec fn starts_token(c: char) -> bool {
    c == '(' || c == ')' || c == ',' || c == '=' || c == ';' || c == '\'' || is_digit(c)
        || is_alpha(c)
}

/// The first position at or after `p` whose character begins a token, or the
/// length of `s` if there is none.
pub open spec fn token_start(s: Seq<char>, p: int) -> int
    decreases s.len() - p,
{
    if p >= s.len() {
        s.len() as int
    } else if starts_token(s[p]) {
        p
    } else {
        token_start(s, p + 1)
    }
}

/// The first position at or after `p` whose character is not white space, or
/// the length of `s` if there is none.
pub open spec fn whitespace_end(s: Seq<char>, p: int) -> int
    decreases s.len() - p,
{
    if p >= s.len() {
        s.len() as int
    } else if !is_white_space(s[p]) {
        p
    } else {
        whitespace_end(s, p + 1)
    }
}

/// The end of the run of digits that starts at `p`.
pub open spec fn digits_end(s: Seq<char>, p: int) -> int
    decreases s.len() - p,
{
    if 0 <= p < s.len() && is_digit(s[p]) {
        digits_end(s, p + 1)
    } else {
        p
    }
}

/// The end of the run of word characters that starts at `p`.
pub open spec fn word_end(s: Seq<char>, p: int) -> int
    decreases s.len() - p,
{
    if 0 <= p < s.len() && is_word_char(s[p]) {
        word_end(s, p + 1)
    } else {
        p
    }
}

/// The position of the first quote at or after `p`, or the length of `s`.
pub open spec fn quote_end(s: Seq<char>, p: int) -> int
    decreases s.len() - p,
{
    if 0 <= p < s.len() && s[p] != '\'' {
        quote_end(s, p + 1)
    } else {
        p
    }
}

/// The value of a string of decimal digits.
pub open spec fn digits_value(w: Seq<char>) -> int
    decreases w.len(),
{
    if w.len() == 0 {
        0
    } else {
        digits_value(w.drop_last()) * 10 + (w.last() as int - '0' as int)
    }
}

/// The code of the ASCII upper case of `c`.
pub open spec fn upper_code(c: char) -> u32 {
    if 'a' <= c <= 'z' {
        (c as u32 - 32) as u32
    } else {
        c as u32
    }
}

/// Whether `w`, put in upper case, is the keyword `kw`.
pub open spec fn is_keyword(w: Seq<char>, kw: Seq<char>) -> bool {
    w.len() == kw.len() && forall|i: int| 0 <= i < w.len() ==> upper_code(w[i]) == kw[i] as u32
}

/// The token that a word gives: a keyword in any case, else an identifier.
pub open spec fn word_token(w: Seq<char>) -> TokenView {
    if is_keyword(w, seq!['S', 'E', 'L', 'E', 'C', 'T']) {
        TokenView::Select
    } else if is_keyword(w, seq!['F', 'R', 'O', 'M']) {
        TokenView::From
    } else if is_keyword(w, seq!['W', 'H', 'E', 'R', 'E']) {
        TokenView::Where
    } else if is_keyword(w, seq!['I', 'N', 'S', 'E', 'R', 'T']) {
        TokenView::Insert
    } else if is_keyword(w, seq!['I', 'N', 'T', 'O']) {
        TokenView::Into
    } else if is_keyword(w, seq!['V', 'A', 'L', 'U', 'E', 'S']) {
        TokenView::Values
    } else if is_keyword(w, seq!['C', 'R', 'E', 'A', 'T', 'E']) {
        TokenView::Create
    } else if is_keyword(w, seq!['T', 'A', 'B', 'L', 'E']) {
        TokenView::Table
    } else if is_keyword(w, seq!['D', 'E', 'L', 'E', 'T', 'E']) {
        TokenView::Delete
    } else {
        TokenView::Identifier(w)
    }
}

/// The token that the lexer reads from position `p` of `s`.
pub open spec fn lex(s: Seq<char>, p: int) -> TokenView {
    let b = token_start(s, p);
    if b >= s.len() {
        TokenView::Eof
    } else {
        let c = s[b];
        if c == '(' {
            TokenView::OpenParen
        } else if c == ')' {
            TokenView::CloseParen
        } else if c == ',' {
            TokenView::Comma
        } else if c == '=' {
            TokenView::Equals
        } else if c == ';' {
            TokenView::Semicolon
        } else if c == '\'' {
            TokenView::StringLiteral(s.subrange(b + 1, quote_end(s, b + 1)))
        } else if is_digit(c) {
            TokenView::Number(digits_value(s.subrange(b, digits_end(s, b))) as i32)
        } else {
            word_token(s.subrange(b, word_end(s, b)))
        }
    }
}

/// The position at which the lexer stands after reading a token from `p`.
pub open spec fn lex_end(s: Seq<char>, p: int) -> int {
    let b = token_start(s, p);
    if b >= s.len() {
        s.len() as int
    } else {
        let c = s[b];
        if c == '\'' {
            let q = quote_end(s, b + 1);
            if q < s.len() {
                q + 1
            } else {
                q
            }
        } else if is_digit(c) {
            digits_end(s, b)
        } else if is_alpha(c) {
            word_end(s, b)
        } else {
            b + 1
        }
    }
}

/// The character codes of `w` with its ASCII lower-case letters put in upper
/// case.
pub open spec fn upper_codes(w: Seq<char>) -> Seq<int> {
    Seq::new(w.len(), |i: int| if 'a' <= w[i] && w[i] <= 'z' { w[i] as int - 32 } else { w[i] as int })
}

/// The character codes of `k`.
pub open spec fn codes(k: Seq<char>) -> Seq<int> {
    Seq::new(k.len(), |i: int| k[i] as int)
}

/// The spelling of a keyword token; empty for any other token.
pub open spec fn keyword_spelling(t: TokenView) -> Seq<char> {
    match t {
        TokenView::Select => seq!['S', 'E', 'L', 'E', 'C', 'T'],
        TokenView::From => seq!['F', 'R', 'O', 'M'],
        TokenView::Where => seq!['W', 'H', 'E', 'R', 'E'],
        TokenView::Insert => seq!['I', 'N', 'S', 'E', 'R', 'T'],
        TokenView::Into => seq!['I', 'N', 'T', 'O'],
        TokenView::Values => seq!['V', 'A', 'L', 'U', 'E', 'S'],
        TokenView::Create => seq!['C', 'R', 'E', 'A', 'T', 'E'],
        TokenView::Table => seq!['T', 'A', 'B', 'L', 'E'],
        TokenView::Delete => seq!['D', 'E', 'L', 'E', 'T', 'E'],
        _ => Seq::empty(),
    }
}

/// Whether `w` in upper case is exactly one of the SQL keywords.
pub open spec fn spells_keyword(w: Seq<char>) -> bool {
    ||| upper_codes(w) == codes(seq!['S', 'E', 'L', 'E', 'C', 'T'])
    ||| upper_codes(w) == codes(seq!['F', 'R', 'O', 'M'])
    ||| upper_codes(w) == codes(seq!['W', 'H', 'E', 'R', 'E'])
    ||| upper_codes(w) == codes(seq!['I', 'N', 'S', 'E', 'R', 'T'])
    ||| upper_codes(w) == codes(seq!['I', 'N', 'T', 'O'])
    ||| upper_codes(w) == codes(seq!['V', 'A', 'L', 'U', 'E', 'S'])
    ||| upper_codes(w) == codes(seq!['C', 'R', 'E', 'A', 'T', 'E'])
    ||| upper_codes(w) == codes(seq!['T', 'A', 'B', 'L', 'E'])
    ||| upper_codes(w) == codes(seq!['D', 'E', 'L', 'E', 'T', 'E'])
}

proof fn lemma_upper_code(c: char)
    ensures
        upper_code(c) as int == (if 'a' <= c && c <= 'z' { c as int - 32 } else { c as int }),
        (c as u32) as int == c as int,
{
}

proof fn lemma_is_keyword_codes(w: Seq<char>, kw: Seq<char>)
    ensures
        is_keyword(w, kw) == (upper_codes(w) == codes(kw)),
{
    assert forall|i: int| 0 <= i < w.len() && i < kw.len() implies (upper_code(w[i]) == kw[i] as u32) == (
    #[trigger] upper_codes(w)[i] == codes(kw)[i]) by {
        lemma_upper_code(w[i]);
        lemma_upper_code(kw[i]);
    }
    if is_keyword(w, kw) {
        assert(upper_codes(w) =~= codes(kw));
    } else if upper_codes(w) == codes(kw) {
        assert forall|i: int| 0 <= i < w.len() implies upper_code(w[i]) == kw[i] as u32 by {
            assert(upper_codes(w)[i] == codes(kw)[i]);
        }
    }
}

/// A word lexes as a keyword exactly when, put in upper case, it spells that
/// keyword whole, in any case of its letters: a word that spells no keyword
/// (a longer word that only begins with one, say) is an identifier with the
/// word's own characters, and a keyword token's spelling is the word's.
pub proof fn lemma_words_lex_as_whole_keywords(s: Seq<char>, p: int)
    requires
        token_start(s, p) < s.len(),
        is_alpha(s[token_start(s, p)]),
    ensures
        ({
            let b = token_start(s, p);
            let w = s.subrange(b, word_end(s, b));
            &&& !spells_keyword(w) ==> lex(s, p) == TokenView::Identifier(w)
            &&& lex(s, p) matches TokenView::Identifier(x) ==> x == w && !spells_keyword(w)
            &&& !(lex(s, p) is Identifier) ==> upper_codes(w) == codes(keyword_spelling(lex(s, p)))
        }),
{
    let b = token_start(s, p);
    let w = s.subrange(b, word_end(s, b));
    lemma_is_keyword_codes(w, seq!['S', 'E', 'L', 'E', 'C', 'T']);
    lemma_is_keyword_codes(w, seq!['F', 'R', 'O', 'M']);
    lemma_is_keyword_codes(w, seq!['W', 'H', 'E', 'R', 'E']);
    lemma_is_keyword_codes(w, seq!['I', 'N', 'S', 'E', 'R', 'T']);
    lemma_is_keyword_codes(w, seq!['I', 'N', 'T', 'O']);
    lemma_is_keyword_codes(w, seq!['V', 'A', 'L', 'U', 'E', 'S']);
    lemma_is_keyword_codes(w, seq!['C', 'R', 'E', 'A', 'T', 'E']);
    lemma_is_keyword_codes(w, seq!['T', 'A', 'B', 'L', 'E']);
    lemma_is_keyword_codes(w, seq!['D', 'E', 'L', 'E', 'T', 'E']);
}

/// Whether a number read from position `p` fits in an `i32`.
pub open spec fn number_fits(s: Seq<char>, p: int) -> bool {
    let b = token_start(s, p);
    b < s.len() && is_digit(s[b]) ==> digits_value(s.subrange(b, digits_end(s, b))) <= i32::MAX
}

/// Whether every number that the lexer reads from position `p` on fits in an `i32`.
pub open spec fn numbers_fit_from(s: Seq<char>, p: int) -> bool
    decreases s.len() - p,
{
    if 0 <= p < s.len() {
        proof {
            lemma_lex_end_advances(s, p);
        }
        number_fits(s, p) && numbers_fit_from(s, lex_end(s, p))
    } else {
        true
    }
}

proof fn lemma_token_start(s: Seq<char>, p: int)
    requires
        0 <= p <= s.len(),
    ensures
        p <= token_start(s, p) <= s.len(),
        token_start(s, p) < s.len() ==> starts_token(s[token_start(s, p)]),
        forall|i: int| p <= i < token_start(s, p) ==> !starts_token(#[trigger] s[i]),
    decreases s.len() - p,
{
    if p < s.len() && !starts_token(s[p]) {
        lemma_token_start(s, p + 1);
    }
}

proof fn lemma_digits_end(s: Seq<char>, p: int)
    requires
        0 <= p <= s.len(),
    ensures
        p <= digits_end(s, p) <= s.len(),
        digits_end(s, p) < s.len() ==> !is_digit(s[digits_end(s, p)]),
        forall|i: int| p <= i < digits_end(s, p) ==> is_digit(#[trigger] s[i]),
    decreases s.len() - p,
{
    if p < s.len() && is_digit(s[p]) {
        lemma_digits_end(s, p + 1);
    }
}

proof fn lemma_word_end(s: Seq<char>, p: int)
    requires
        0 <= p <= s.len(),
    ensures
        p <= word_end(s, p) <= s.len(),
        word_end(s, p) < s.len() ==> !is_word_char(s[word_end(s, p)]),
        forall|i: int| p <= i < word_end(s, p) ==> is_word_char(#[trigger] s[i]),
    decreases s.len() - p,
{
    if p < s.len() && is_word_char(s[p]) {
        lemma_word_end(s, p + 1);
    }
}

proof fn lemma_quote_end(s: Seq<char>, p: int)
    requires
        0 <= p <= s.len(),
    ensures
        p <= quote_end(s, p) <= s.len(),
        quote_end(s, p) < s.len() ==> s[quote_end(s, p)] == '\'',
        forall|i: int| p <= i < quote_end(s, p) ==> #[trigger] s[i] != '\'',
    decreases s.len() - p,
{
    if p < s.len() && s[p] != '\'' {
        lemma_quote_end(s, p + 1);
    }
}

/// Reading a token never moves backwards, and moves forwards unless the input is exhausted.
pub proof fn lemma_lex_end_advances(s: Seq<char>, p: int)
    requires
        0 <= p <= s.len(),
    ensures
        p <= lex_end(s, p) <= s.len(),
        token_start(s, p) < s.len() ==> p < lex_end(s, p),
        lex(s, p) !is Eof ==> p < lex_end(s, p),
        lex(s, p) is Eof ==> lex_end(s, p) == s.len(),
{
    lemma_token_start(s, p);
    let b = token_start(s, p);
    if b < s.len() {
        lemma_quote_end(s, b + 1);
        lemma_digits_end(s, b);
        lemma_word_end(s, b);
    }
}

/// Skipping a character that begins no token does not change what is read.
proof fn lemma_skip_char(s: Seq<char>, p: int)
    requires
        0 <= p < s.len(),
        !starts_token(s[p]),
    ensures
        token_start(s, p + 1) == token_start(s, p),
{
}

/// A prefix of a string of digits has a value no larger than the whole.
proof fn lemma_digits_value_prefix(w: Seq<char>, k: int)
    requires
        0 <= k <= w.len(),
        forall|i: int| 0 <= i < w.len() ==> is_digit(#[trigger] w[i]),
    ensures
        0 <= digits_value(w.take(k)) <= digits_value(w),
    decreases w.len(),
{
    if w.len() > 0 {
        let d = w.drop_last();
        if k < w.len() {
            lemma_digits_value_prefix(d, k);
            assert(d.take(k) =~= w.take(k));
        } else {
            assert(w.take(k) =~= w);
            lemma_digits_value_prefix(d, 0);
        }
        assert(digits_value(w) == digits_value(d) * 10 + (w.last() as int - '0' as int));
    } else {
        assert(w.take(k) =~= w);
    }
}

/// A lexer that reads tokens from a line of SQL.
pub struct Lexer {
    chars: Vec<char>,
    pos: usize,
}

impl Lexer {
    /// The characters of the input.
    pub closed spec fn input(&self) -> Seq<char> {
        self.chars@
    }

    /// The position of the next character to read.
    pub closed spec fn position(&self) -> int {
        self.pos as int
    }

    /// The position lies within the input.
    pub closed spec fn wf(&self) -> bool {
        self.pos <= self.chars@.len()
    }

    /// A lexer at the start of `input`.
    pub fn new(input: &str) -> (r: Self)
        ensures
            r.wf(),
            r.input() == input@,
            r.position() == 0,
    {
        let mut chars: Vec<char> = Vec::new();
        for c in it: input.chars()
            invariant
                chars@ == it.seq().take(it.index() as int),
        {
            chars.push(c);
        }
        Lexer { chars, pos: 0 }
    }

    fn skip_whitespace(&mut self)
        requires
            old(self).wf(),
        ensures
            final(self).wf(),
            final(self).input() == old(self).input(),
            old(self).position() <= final(self).position(),
            final(self).position() == whitespace_end(old(self).input(), old(self).position()),
            token_start(final(self).input(), final(self).position()) == token_start(
                old(self).input(),
                old(self).position(),
            ),
    {
        let ghost p0 = self.pos as int;
        let ghost s = self.chars@;
        while self.pos < self.chars.len() && char_is_whitespace(self.chars[self.pos])
            invariant
                self.chars@ == s,
                p0 <= self.pos <= self.chars@.len(),
                token_start(self.chars@, self.pos as int) == token_start(self.chars@, p0),
                whitespace_end(self.chars@, self.pos as int) == whitespace_end(self.chars@, p0),
            decreases self.chars@.len() - self.pos,
        {
            proof {
                lemma_skip_char(self.chars@, self.pos as int);
            }
            self.pos = self.pos + 1;
        }
    }

    /// Whether `w` (the characters in `b..e`), put in upper case, is `kw`.
    fn word_is(&self, b: usize, e: usize, kw: &Vec<char>) -> (r: bool)
        requires
            b <= e <= self.chars@.len(),
        ensures
            r == is_keyword(self.chars@.subrange(b as int, e as int), kw@),
    {
        if e - b != kw.len() {
            return false;
        }
        let mut i: usize = 0;
        while i < kw.len()
            invariant
                b <= e <= self.chars@.len(),
                e - b == kw@.len(),
                i <= kw@.len(),
                forall|j: int|
                    0 <= j < i ==> upper_code(self.chars@[b + j]) == #[trigger] kw@[j] as u32,
            decreases kw@.len() - i,
        {
            let c = self.chars[b + i];
            let u: u32 = if c >= 'a' && c <= 'z' {
                c as u32 - 32
            } else {
                c as u32
            };
            if u != kw[i] as u32 {
                assert(upper_code(self.chars@.subrange(b as int, e as int)[i as int]) != kw@[i as int] as u32);
                return false;
            }
            i = i + 1;
        }
        true
    }

    /// The token for the word in `b..e`, whose text is `word`.
    fn word_token(&self, b: usize, e: usize, word: String) -> (t: Token)
        requires
            b <= e <= self.chars@.len(),
            word@ == self.chars@.subrange(b as int, e as int),
        ensures
            t@ == word_token(self.chars@.subrange(b as int, e as int)),
    {
        if self.word_is(b, e, &vec!['S', 'E', 'L', 'E', 'C', 'T']) {
            Token::Select
        } else if self.word_is(b, e, &vec!['F', 'R', 'O', 'M']) {
            Token::From
        } else if self.word_is(b, e, &vec!['W', 'H', 'E', 'R', 'E']) {
            Token::Where
        } else if self.word_is(b, e, &vec!['I', 'N', 'S', 'E', 'R', 'T']) {
            Token::Insert
        } else if self.word_is(b, e, &vec!['I', 'N', 'T', 'O']) {
            Token::Into
        } else if self.word_is(b, e, &vec!['V', 'A', 'L', 'U', 'E', 'S']) {
            Token::Values
        } else if self.word_is(b, e, &vec!['C', 'R', 'E', 'A', 'T', 'E']) {
            Token::Create
        } else if self.word_is(b, e, &vec!['T', 'A', 'B', 'L', 'E']) {
            Token::Table
        } else if self.word_is(b, e, &vec!['D', 'E', 'L', 'E', 'T', 'E']) {
            Token::Delete
        } else {
            Token::Identifier(word)
        }
    }

    /// Reads the next token, or gives `None` (having read past it) where it is a
    /// number that does not fit in an `i32`.
    fn try_next_token(&mut self) -> (r: Option<Token>)
        requires
            old(self).wf(),
        ensures
            final(self).wf(),
            final(self).input() == old(self).input(),
            final(self).position() == lex_end(old(self).input(), old(self).position()),
            r is None <==> !number_fits(old(self).input(), old(self).position()),
            r matches Some(t) ==> t@ == lex(old(self).input(), old(self).position()),
        decreases old(self).input().len() - old(self).position(),
    {
        let ghost s = self.chars@;
        let ghost p0 = self.pos as int;
        self.skip_whitespace();
        proof {
            lemma_token_start(s, p0);
            lemma_token_start(s, self.pos as int);
        }
        if self.pos < self.chars.len() {
            let c = self.chars[self.pos];
            if c == '(' {
                self.pos = self.pos + 1;
                Some(Token::OpenParen)
            } else if c == ')' {
                self.pos = self.pos + 1;
                Some(Token::CloseParen)
            } else if c == ',' {
                self.pos = self.pos + 1;
                Some(Token::Comma)
            } else if c == '=' {
                self.pos = self.pos + 1;
                Some(Token::Equals)
            } else if c == ';' {
                self.pos = self.pos + 1;
                Some(Token::Semicolon)
            } else if c == '\'' {
                self.pos = self.pos + 1;
                let ghost b = self.pos as int;
                proof {
                    lemma_quote_end(s, b);
                }
                let mut text = String::new();
                assert(lex_end(s, p0) == if quote_end(s, b) < s.len() {
                    quote_end(s, b) + 1
                } else {
                    quote_end(s, b)
                });
                while self.pos < self.chars.len()
                    invariant_except_break
                        self.chars@ == s,
                        lex_end(s, p0) == if quote_end(s, b) < s.len() {
                            quote_end(s, b) + 1
                        } else {
                            quote_end(s, b)
                        },
                        quote_end(s, b) <= s.len(),
                        forall|i: int| b <= i < quote_end(s, b) ==> #[trigger] s[i] != '\'',
                        quote_end(s, b) < s.len() ==> s[quote_end(s, b)] == '\'',
                        b <= self.pos <= quote_end(s, b),
                        text@ == s.subrange(b, self.pos as int),
                    ensures
                        self.chars@ == s,
                        text@ == s.subrange(b, quote_end(s, b)),
                        self.pos == lex_end(s, p0),
                    decreases s.len() - self.pos,
                {
                    let ch = self.chars[self.pos];
                    self.pos = self.pos + 1;
                    if ch == '\'' {
                        break;
                    }
                    text.push(ch);
                    proof {
                        assert(text@ =~= s.subrange(b, self.pos as int));
                    }
                }
                Some(Token::StringLiteral(text))
            } else if c >= '0' && c <= '9' {
                let ghost b = self.pos as int;
                let ghost e = digits_end(s, b);
                let ghost w = s.subrange(b, e);
                proof {
                    lemma_digits_end(s, b);
                }
                let mut num: i32 = 0;
                let mut fits = true;
                while self.pos < self.chars.len() && self.chars[self.pos] >= '0' && self.chars[self.pos] <= '9'
                    invariant
                        self.chars@ == s,
                        0 <= b <= self.pos <= e,
                        e <= s.len(),
                        e == digits_end(s, b),
                        w == s.subrange(b, e),
                        forall|i: int| b <= i < e ==> is_digit(#[trigger] s[i]),
                        e < s.len() ==> !is_digit(s[e]),
                        fits ==> num == digits_value(s.subrange(b, self.pos as int)),
                        !fits ==> digits_value(w) > i32::MAX,
                    decreases s.len() - self.pos,
                {
                    let ghost p = self.pos as int;
                    proof {
                        assert(p < e);
                        assert(s.subrange(b, p + 1).drop_last() =~= s.subrange(b, p));
                        assert(w.take(p + 1 - b) =~= s.subrange(b, p + 1));
                        lemma_digits_value_prefix(w, p + 1 - b);
                    }
                    let d = self.chars[self.pos] as u32 - '0' as u32;
                    if fits {
                        if num > (i32::MAX - d as i32) / 10 {
                            fits = false;
                            assert(digits_value(s.subrange(b, p + 1)) > i32::MAX) by (nonlinear_arith)
                                requires
                                    digits_value(s.subrange(b, p + 1)) == num * 10 + d,
                                    num > (i32::MAX - d) / 10,
                                    0 <= d <= 9,
                            ;
                        } else {
                            assert(num * 10 + d <= i32::MAX) by (nonlinear_arith)
                                requires
                                    num <= (i32::MAX - d) / 10,
                                    0 <= d <= 9,
                            ;
                            num = num * 10 + d as i32;
                        }
                    }
                    self.pos = self.pos + 1;
                }
                proof {
                    assert(w.take(w.len() as int) =~= w);
                }
                if fits {
                    Some(Token::Number(num))
                } else {
                    None
                }
            } else if (c >= 'a' && c <= 'z') || (c >= 'A' && c <= 'Z') {
                let b = self.pos;
                proof {
                    lemma_word_end(s, b as int);
                }
                let mut word = String::new();
                while self.pos < self.chars.len() && ((self.chars[self.pos] >= 'a' && self.chars[self.pos] <= 'z')
                    || (self.chars[self.pos] >= 'A' && self.chars[self.pos] <= 'Z')
                    || (self.chars[self.pos] >= '0' && self.chars[self.pos] <= '9')
                    || self.chars[self.pos] == '_')
                    invariant
                        self.chars@ == s,
                        b <= self.pos <= word_end(s, b as int),
                        word_end(s, b as int) <= s.len(),
                        forall|i: int| b <= i < word_end(s, b as int) ==> is_word_char(#[trigger] s[i]),
                        word_end(s, b as int) < s.len() ==> !is_word_char(s[word_end(s, b as int)]),
                        word@ == s.subrange(b as int, self.pos as int),
                    decreases s.len() - self.pos,
                {
                    word.push(self.chars[self.pos]);
                    self.pos = self.pos + 1;
                    proof {
                        assert(word@ =~= s.subrange(b as int, self.pos as int));
                    }
                }
                let e = self.pos;
                Some(self.word_token(b, e, word))
            } else {
                self.pos = self.pos + 1;
                proof {
                    lemma_skip_char(s, self.pos - 1);
                }
                self.try_next_token()
            }
        } else {
            Some(Token::Eof)
        }
    }

    /// Reads the next token; characters that begin no token are skipped.
    pub fn next_token(&mut self) -> (t: Token)
        requires
            old(self).wf(),
            number_fits(old(self).input(), old(self).position()),
        ensures
            final(self).wf(),
            final(self).input() == old(self).input(),
            final(self).position() == lex_end(old(self).input(), old(self).position()),
            t@ == lex(old(self).input(), old(self).position()),
    {
        match self.try_next_token() {
            Some(t) => t,
            None => Token::Eof,
        }
    }
}

/// Whether every number in `input` fits in an `i32`, which `Parser::new` asks.
pub fn numbers_fit(input: &str) -> (r: bool)
    ensures
        r == numbers_fit_from(input@, 0),
{
    let mut lexer = Lexer::new(input);
    let ghost s = input@;
    loop
        invariant
            lexer.wf(),
            lexer.input() == s,
            s == input@,
            numbers_fit_from(s, 0) == numbers_fit_from(s, lexer.position()),
        decreases s.len() - lexer.position(),
    {
        let ghost p = lexer.position();
        proof {
            lemma_lex_end_advances(s, p);
        }
        proof {
            lemma_token_start(s, p);
        }
        match lexer.try_next_token() {
            None => {
                assert(p < s.len());
                assert(!number_fits(s, p));
                assert(!numbers_fit_from(s, p));
                return false;
            },
            Some(Token::Eof) => {
                assert(numbers_fit_from(s, p)) by {
                    if p < s.len() {
                        assert(numbers_fit_from(s, s.len() as int));
                    }
                }
                return true;
            },
            Some(_) => {
                assert(p < s.len());
            },
        }
    }
}


/// A parsed statement.
#[derive(Debug, PartialEq)]
pub enum Ast {
    Select { columns: Vec<String>, table: String },
    Insert { table: String, values: Vec<String> },
    Create { table: String, columns: Vec<String> },
    Delete { table: String },
}

/// A statement, with each name and value as characters.
pub enum AstView {
    Select { columns: Seq<Seq<char>>, table: Seq<char> },
    Insert { table: Seq<char>, values: Seq<Seq<char>> },
    Create { table: Seq<char>, columns: Seq<Seq<char>> },
    Delete { table: Seq<char> },
}

/// The characters of each string.
pub open spec fn texts(v: Seq<String>) -> Seq<Seq<char>> {
    v.map_values(|x: String| x@)
}

impl View for Ast {
    type V = AstView;

    open spec fn view(&self) -> AstView {
        match self {
            Ast::Select { columns, table } => AstView::Select {
                columns: texts(columns@),
                table: table@,
            },
            Ast::Insert { table, values } => AstView::Insert {
                table: table@,
                values: texts(values@),
            },
            Ast::Create { table, columns } => AstView::Create {
                table: table@,
                columns: texts(columns@),
            },
            Ast::Delete { table } => AstView::Delete { table: table@ },
        }
    }
}


/// The text of a token as its `Debug` form gives it: the variant's name,
/// with the text or number it carries in brackets.
pub open spec fn token_text(t: TokenView) -> Seq<char> {
    match t {
        TokenView::Select => "Select"@,
        TokenView::From => "From"@,
        TokenView::Where => "Where"@,
        TokenView::Insert => "Insert"@,
        TokenView::Into => "Into"@,
        TokenView::Values => "Values"@,
        TokenView::Create => "Create"@,
        TokenView::Table => "Table"@,
        TokenView::Delete => "Delete"@,
        TokenView::Identifier(x) => call_text("Identifier"@, debug_quoted(x)),
        TokenView::Number(n) => call_text("Number"@, decimal_text(n)),
        TokenView::StringLiteral(x) => call_text("StringLiteral"@, debug_quoted(x)),
        TokenView::Comma => "Comma"@,
        TokenView::OpenParen => "OpenParen"@,
        TokenView::CloseParen => "CloseParen"@,
        TokenView::Equals => "Equals"@,
        TokenView::Semicolon => "Semicolon"@,
        TokenView::Eof => "Eof"@,
    }
}

/// The message for `found` where `expected` should stand.
pub open spec fn expected_text(expected: TokenView, found: TokenView) -> Seq<char> {
    "Expected "@ + token_text(expected) + ", found "@ + token_text(found)
}

/// The message for a statement that starts with `found`.
pub open spec fn unexpected_start_text(found: TokenView) -> Seq<char> {
    "Unexpected statement start: "@ + token_text(found)
}

impl Token {
    /// The token's text, as `token_text` gives it.
    pub fn text(&self) -> (r: String)
        ensures
            r@ == token_text(self@),
    {
        match self {
            Token::Select => String::from_str("Select"),
            Token::From => String::from_str("From"),
            Token::Where => String::from_str("Where"),
            Token::Insert => String::from_str("Insert"),
            Token::Into => String::from_str("Into"),
            Token::Values => String::from_str("Values"),
            Token::Create => String::from_str("Create"),
            Token::Table => String::from_str("Table"),
            Token::Delete => String::from_str("Delete"),
            Token::Identifier(x) => {
                let q = str_debug(x.as_str());
                call_string("Identifier", q.as_str())
            },
            Token::Number(n) => {
                let d = i32_to_string(*n);
                call_string("Number", d.as_str())
            },
            Token::StringLiteral(x) => {
                let q = str_debug(x.as_str());
                call_string("StringLiteral", q.as_str())
            },
            Token::Comma => String::from_str("Comma"),
            Token::OpenParen => String::from_str("OpenParen"),
            Token::CloseParen => String::from_str("CloseParen"),
            Token::Equals => String::from_str("Equals"),
            Token::Semicolon => String::from_str("Semicolon"),
            Token::Eof => String::from_str("Eof"),
        }
    }
}

/// The message for `found` where `expected` should stand.
fn expected_message(expected: &Token, found: &Token) -> (r: String)
    ensures
        r@ == expected_text(expected@, found@),
{
    let mut r = String::from_str("Expected ");
    let e = expected.text();
    r.append(e.as_str());
    r.append(", found ");
    let f = found.text();
    r.append(f.as_str());
    r
}

/// The message for a statement that starts with `found`.
fn unexpected_start_message(found: &Token) -> (r: String)
    ensures
        r@ == unexpected_start_text(found@),
{
    let mut r = String::from_str("Unexpected statement start: ");
    let f = found.text();
    r.append(f.as_str());
    r
}

/// A number for each kind of token, ignoring the text or value it carries.
pub open spec fn kind(t: TokenView) -> int {
    match t {
        TokenView::Select => 0,
        TokenView::From => 1,
        TokenView::Where => 2,
        TokenView::Insert => 3,
        TokenView::Into => 4,
        TokenView::Values => 5,
        TokenView::Create => 6,
        TokenView::Table => 7,
        TokenView::Delete => 8,
        TokenView::Identifier(_) => 9,
        TokenView::Number(_) => 10,
        TokenView::StringLiteral(_) => 11,
        TokenView::Comma => 12,
        TokenView::OpenParen => 13,
        TokenView::CloseParen => 14,
        TokenView::Equals => 15,
        TokenView::Semicolon => 16,
        TokenView::Eof => 17,
    }
}

fn kind_of(t: &Token) -> (k: u8)
    ensures
        k == kind(t@),
{
    match t {
        Token::Select => 0,
        Token::From => 1,
        Token::Where => 2,
        Token::Insert => 3,
        Token::Into => 4,
        Token::Values => 5,
        Token::Create => 6,
        Token::Table => 7,
        Token::Delete => 8,
        Token::Identifier(_) => 9,
        Token::Number(_) => 10,
        Token::StringLiteral(_) => 11,
        Token::Comma => 12,
        Token::OpenParen => 13,
        Token::CloseParen => 14,
        Token::Equals => 15,
        Token::Semicolon => 16,
        Token::Eof => 17,
    }
}

/// The names of a `SELECT` column list read from `p` on, and the position
/// before the token that ends it.
pub open spec fn column_list(s: Seq<char>, p: int) -> (Seq<Seq<char>>, int)
    decreases s.len() - p,
{
    if 0 <= p <= s.len() {
        match lex(s, p) {
            TokenView::Identifier(id) => {
                let p1 = lex_end(s, p);
                proof {
                    lemma_lex_end_advances(s, p);
                    lemma_lex_end_advances(s, p1);
                }
                if lex(s, p1) is Comma {
                    let r = column_list(s, lex_end(s, p1));
                    (seq![id] + r.0, r.1)
                } else {
                    (seq![id], p1)
                }
            },
            _ => (Seq::empty(), p),
        }
    } else {
        (Seq::empty(), p)
    }
}

/// The values of an `INSERT` value list read from `p` on, and the position
/// before the token that ends it.
pub open spec fn value_list(s: Seq<char>, p: int) -> (Seq<Seq<char>>, int)
    decreases s.len() - p,
{
    if 0 <= p <= s.len() {
        let v = match lex(s, p) {
            TokenView::Number(n) => Some(decimal_text(n)),
            TokenView::StringLiteral(x) => Some(x),
            _ => None,
        };
        if v is Some {
            let p1 = lex_end(s, p);
            proof {
                lemma_lex_end_advances(s, p);
                lemma_lex_end_advances(s, p1);
            }
            if lex(s, p1) is Comma {
                let r = value_list(s, lex_end(s, p1));
                (seq![v->0] + r.0, r.1)
            } else {
                (seq![v->0], p1)
            }
        } else {
            (Seq::empty(), p)
        }
    } else {
        (Seq::empty(), p)
    }
}

/// The column names of a `CREATE TABLE` column list read from `p` on (a type
/// name after a column name is skipped), and the position before the token
/// that ends it.
pub open spec fn column_defs(s: Seq<char>, p: int) -> (Seq<Seq<char>>, int)
    decreases s.len() - p,
{
    if 0 <= p <= s.len() {
        match lex(s, p) {
            TokenView::Identifier(id) => {
                let p1 = lex_end(s, p);
                proof {
                    lemma_lex_end_advances(s, p);
                    lemma_lex_end_advances(s, p1);
                }
                let p2 = if lex(s, p1) is Identifier {
                    lex_end(s, p1)
                } else {
                    p1
                };
                proof {
                    lemma_lex_end_advances(s, p2);
                }
                if lex(s, p2) is Comma {
                    let r = column_defs(s, lex_end(s, p2));
                    (seq![id] + r.0, r.1)
                } else {
                    (seq![id], p2)
                }
            },
            _ => (Seq::empty(), p),
        }
    } else {
        (Seq::empty(), p)
    }
}

/// `SELECT a, b, .. FROM t`, the `SELECT` read from `p`.
pub open spec fn select_spec(s: Seq<char>, p: int) -> Option<AstView> {
    let r = column_list(s, lex_end(s, p));
    if lex(s, r.1) is From {
        match lex(s, lex_end(s, r.1)) {
            TokenView::Identifier(t) => Some(AstView::Select { columns: r.0, table: t }),
            _ => None,
        }
    } else {
        None
    }
}

/// `INSERT INTO t VALUES (v, ..)`, the `INSERT` read from `p`.
pub open spec fn insert_spec(s: Seq<char>, p: int) -> Option<AstView> {
    let p1 = lex_end(s, p);
    let p2 = lex_end(s, p1);
    let p3 = lex_end(s, p2);
    let p4 = lex_end(s, p3);
    let r = value_list(s, lex_end(s, p4));
    if lex(s, p1) is Into {
        match lex(s, p2) {
            TokenView::Identifier(t) => if lex(s, p3) is Values && lex(s, p4) is OpenParen && lex(
                s,
                r.1,
            ) is CloseParen {
                Some(AstView::Insert { table: t, values: r.0 })
            } else {
                None
            },
            _ => None,
        }
    } else {
        None
    }
}

/// `CREATE TABLE t (c type, ..)`, the `CREATE` read from `p`.
pub open spec fn create_spec(s: Seq<char>, p: int) -> Option<AstView> {
    let p1 = lex_end(s, p);
    let p2 = lex_end(s, p1);
    let p3 = lex_end(s, p2);
    let r = column_defs(s, lex_end(s, p3));
    if lex(s, p1) is Table {
        match lex(s, p2) {
            TokenView::Identifier(t) => if lex(s, p3) is OpenParen && lex(s, r.1) is CloseParen {
                Some(AstView::Create { table: t, columns: r.0 })
            } else {
                None
            },
            _ => None,
        }
    } else {
        None
    }
}

/// `DELETE FROM t`, the `DELETE` read from `p`.
pub open spec fn delete_spec(s: Seq<char>, p: int) -> Option<AstView> {
    let p1 = lex_end(s, p);
    if lex(s, p1) is From {
        match lex(s, lex_end(s, p1)) {
            TokenView::Identifier(t) => Some(AstView::Delete { table: t }),
            _ => None,
        }
    } else {
        None
    }
}

/// The statement that starts with the token read from `p`, if it is one.
pub open spec fn parse_spec(s: Seq<char>, p: int) -> Option<AstView> {
    match lex(s, p) {
        TokenView::Select => select_spec(s, p),
        TokenView::Insert => insert_spec(s, p),
        TokenView::Create => create_spec(s, p),
        TokenView::Delete => delete_spec(s, p),
        _ => None,
    }
}

/// The message for a table name that is missing.
pub open spec fn no_table_name_text() -> Seq<char> {
    "Expected table name"@
}

/// The message with which `select_spec` fails.
pub open spec fn select_error(s: Seq<char>, p: int) -> Seq<char> {
    let r = column_list(s, lex_end(s, p));
    if !(lex(s, r.1) is From) {
        expected_text(TokenView::From, lex(s, r.1))
    } else {
        no_table_name_text()
    }
}

/// The message with which `insert_spec` fails.
pub open spec fn insert_error(s: Seq<char>, p: int) -> Seq<char> {
    let p1 = lex_end(s, p);
    let p2 = lex_end(s, p1);
    let p3 = lex_end(s, p2);
    let p4 = lex_end(s, p3);
    let r = value_list(s, lex_end(s, p4));
    if !(lex(s, p1) is Into) {
        expected_text(TokenView::Into, lex(s, p1))
    } else if !(lex(s, p2) is Identifier) {
        no_table_name_text()
    } else if !(lex(s, p3) is Values) {
        expected_text(TokenView::Values, lex(s, p3))
    } else if !(lex(s, p4) is OpenParen) {
        expected_text(TokenView::OpenParen, lex(s, p4))
    } else {
        expected_text(TokenView::CloseParen, lex(s, r.1))
    }
}

/// The message with which `create_spec` fails.
pub open spec fn create_error(s: Seq<char>, p: int) -> Seq<char> {
    let p1 = lex_end(s, p);
    let p2 = lex_end(s, p1);
    let p3 = lex_end(s, p2);
    let r = column_defs(s, lex_end(s, p3));
    if !(lex(s, p1) is Table) {
        expected_text(TokenView::Table, lex(s, p1))
    } else if !(lex(s, p2) is Identifier) {
        no_table_name_text()
    } else if !(lex(s, p3) is OpenParen) {
        expected_text(TokenView::OpenParen, lex(s, p3))
    } else {
        expected_text(TokenView::CloseParen, lex(s, r.1))
    }
}

/// The message with which `delete_spec` fails.
pub open spec fn delete_error(s: Seq<char>, p: int) -> Seq<char> {
    let p1 = lex_end(s, p);
    if !(lex(s, p1) is From) {
        expected_text(TokenView::From, lex(s, p1))
    } else {
        no_table_name_text()
    }
}

/// The message with which `parse_spec` fails.
pub open spec fn parse_error(s: Seq<char>, p: int) -> Seq<char> {
    match lex(s, p) {
        TokenView::Select => select_error(s, p),
        TokenView::Insert => insert_error(s, p),
        TokenView::Create => create_error(s, p),
        TokenView::Delete => delete_error(s, p),
        t => unexpected_start_text(t),
    }
}

/// Every number among the tokens read from `p` on fits in an `i32`, up to
/// and including the first token read from `q` or beyond.
pub open spec fn numbers_fit_upto(s: Seq<char>, p: int, q: int) -> bool
    decreases s.len() - p,
{
    if 0 <= p < s.len() && p < q {
        proof {
            lemma_lex_end_advances(s, p);
        }
        number_fits(s, p) && numbers_fit_upto(s, lex_end(s, p), q)
    } else {
        number_fits(s, p)
    }
}

/// Where parsing a `SELECT` read from `p` stops: the position of the last
/// token it reads.
pub open spec fn select_stop(s: Seq<char>, p: int) -> int {
    let r = column_list(s, lex_end(s, p));
    let p2 = lex_end(s, r.1);
    if !(lex(s, r.1) is From) {
        r.1
    } else if lex(s, p2) is Identifier {
        lex_end(s, p2)
    } else {
        p2
    }
}

/// Where parsing an `INSERT` read from `p` stops.
pub open spec fn insert_stop(s: Seq<char>, p: int) -> int {
    let p1 = lex_end(s, p);
    let p2 = lex_end(s, p1);
    let p3 = lex_end(s, p2);
    let p4 = lex_end(s, p3);
    let r = value_list(s, lex_end(s, p4));
    if !(lex(s, p1) is Into) {
        p1
    } else if !(lex(s, p2) is Identifier) {
        p2
    } else if !(lex(s, p3) is Values) {
        p3
    } else if !(lex(s, p4) is OpenParen) {
        p4
    } else if !(lex(s, r.1) is CloseParen) {
        r.1
    } else {
        lex_end(s, r.1)
    }
}

/// Where parsing a `CREATE` read from `p` stops.
pub open spec fn create_stop(s: Seq<char>, p: int) -> int {
    let p1 = lex_end(s, p);
    let p2 = lex_end(s, p1);
    let p3 = lex_end(s, p2);
    let r = column_defs(s, lex_end(s, p3));
    if !(lex(s, p1) is Table) {
        p1
    } else if !(lex(s, p2) is Identifier) {
        p2
    } else if !(lex(s, p3) is OpenParen) {
        p3
    } else if !(lex(s, r.1) is CloseParen) {
        r.1
    } else {
        lex_end(s, r.1)
    }
}

/// Where parsing a `DELETE` read from `p` stops.
pub open spec fn delete_stop(s: Seq<char>, p: int) -> int {
    let p1 = lex_end(s, p);
    let p2 = lex_end(s, p1);
    if !(lex(s, p1) is From) {
        p1
    } else if lex(s, p2) is Identifier {
        lex_end(s, p2)
    } else {
        p2
    }
}

/// Where parsing a statement read from `p` stops: the position of the last
/// token the parser reads.
pub open spec fn parse_stop(s: Seq<char>, p: int) -> int {
    match lex(s, p) {
        TokenView::Select => select_stop(s, p),
        TokenView::Insert => insert_stop(s, p),
        TokenView::Create => create_stop(s, p),
        TokenView::Delete => delete_stop(s, p),
        _ => p,
    }
}

/// Reading the next token from `a`, before `q`, keeps the numbers fitting.
proof fn lemma_fit_next(s: Seq<char>, a: int, q: int)
    requires
        0 <= a <= s.len(),
        numbers_fit_upto(s, a, q),
        a < q,
        lex(s, a) !is Eof,
    ensures
        number_fits(s, lex_end(s, a)),
        numbers_fit_upto(s, lex_end(s, a), q),
{
    lemma_lex_end_advances(s, a);
    lemma_lex_end_advances(s, lex_end(s, a));
    let b = lex_end(s, a);
    assert(numbers_fit_upto(s, b, q));
    if 0 <= b < s.len() && b < q {
    } else {
    }
}

/// A column list ends at or after where it starts, and after each name and
/// each comma that follows one.
proof fn lemma_column_list_end(s: Seq<char>, p: int)
    requires
        0 <= p <= s.len(),
    ensures
        p <= column_list(s, p).1 <= s.len(),
        lex(s, p) is Identifier ==> lex_end(s, p) <= column_list(s, p).1,
        lex(s, p) is Identifier && lex(s, lex_end(s, p)) is Comma ==> lex_end(s, p) < column_list(s, p).1,
    decreases s.len() - p,
{
    lemma_lex_end_advances(s, p);
    if lex(s, p) is Identifier {
        let p1 = lex_end(s, p);
        lemma_lex_end_advances(s, p1);
        if lex(s, p1) is Comma {
            lemma_column_list_end(s, lex_end(s, p1));
        }
    }
}

/// A value list ends at or after where it starts, and after each value and
/// each comma that follows one.
proof fn lemma_value_list_end(s: Seq<char>, p: int)
    requires
        0 <= p <= s.len(),
    ensures
        p <= value_list(s, p).1 <= s.len(),
        (lex(s, p) is Number || lex(s, p) is StringLiteral) ==> lex_end(s, p) <= value_list(s, p).1,
        (lex(s, p) is Number || lex(s, p) is StringLiteral) && lex(s, lex_end(s, p)) is Comma ==> lex_end(s, p)
            < value_list(s, p).1,
    decreases s.len() - p,
{
    lemma_lex_end_advances(s, p);
    if lex(s, p) is Number || lex(s, p) is StringLiteral {
        let p1 = lex_end(s, p);
        lemma_lex_end_advances(s, p1);
        if lex(s, p1) is Comma {
            lemma_value_list_end(s, lex_end(s, p1));
        }
    }
}

/// A column definition list ends at or after where it starts, and after each
/// name, its type and a comma that follows.
proof fn lemma_column_defs_end(s: Seq<char>, p: int)
    requires
        0 <= p <= s.len(),
    ensures
        p <= column_defs(s, p).1 <= s.len(),
        lex(s, p) is Identifier ==> lex_end(s, p) <= column_defs(s, p).1,
        lex(s, p) is Identifier && lex(s, lex_end(s, p)) is Identifier ==> lex_end(s, lex_end(s, p))
            <= column_defs(s, p).1,
        lex(s, p) is Identifier && ({
            let p1 = lex_end(s, p);
            let p2 = if lex(s, p1) is Identifier {
                lex_end(s, p1)
            } else {
                p1
            };
            lex(s, p2) is Comma
        }) ==> ({
            let p1 = lex_end(s, p);
            let p2 = if lex(s, p1) is Identifier {
                lex_end(s, p1)
            } else {
                p1
            };
            p2 < column_defs(s, p).1
        }),
    decreases s.len() - p,
{
    lemma_lex_end_advances(s, p);
    if lex(s, p) is Identifier {
        let p1 = lex_end(s, p);
        lemma_lex_end_advances(s, p1);
        let p2 = if lex(s, p1) is Identifier {
            lex_end(s, p1)
        } else {
            p1
        };
        lemma_lex_end_advances(s, p2);
        if lex(s, p2) is Comma {
            lemma_column_defs_end(s, lex_end(s, p2));
        }
    }
}

/// A recursive-descent parser over the tokens of a line of SQL.
pub struct Parser {
    lexer: Lexer,
    current_token: Token,
    at: Ghost<int>,
}

impl Parser {
    /// The characters of the input.
    pub closed spec fn input(&self) -> Seq<char> {
        self.lexer.input()
    }

    /// The position from which the current token was read.
    pub closed spec fn position(&self) -> int {
        self.at@
    }

    /// The current token is the one read from `position`, and the lexer
    /// stands after it.
    pub closed spec fn wf(&self) -> bool {
        &&& self.lexer.wf()
        &&& 0 <= self.at@ <= self.lexer.input().len()
        &&& self.current_token@ == lex(self.lexer.input(), self.at@)
        &&& self.lexer.position() == lex_end(self.lexer.input(), self.at@)
    }

    /// A parser at the first token of `input`.
    pub fn new(input: &str) -> (r: Self)
        requires
            number_fits(input@, 0),
        ensures
            r.wf(),
            r.input() == input@,
            r.position() == 0,
    {
        let mut lexer = Lexer::new(input);
        proof {
            lemma_token_start(input@, 0);
        }
        let current_token = lexer.next_token();
        Parser { lexer, current_token, at: Ghost(0) }
    }

    fn advance(&mut self)
        requires
            old(self).wf(),
            number_fits(old(self).input(), lex_end(old(self).input(), old(self).position())),
        ensures
            final(self).wf(),
            final(self).input() == old(self).input(),
            final(self).position() == lex_end(old(self).input(), old(self).position()),
    {
        let ghost s = self.input();
        let ghost p = self.at@;
        let ghost p1 = lex_end(s, p);
        proof {
            lemma_lex_end_advances(s, p);
            lemma_token_start(s, p1);
        }
        self.current_token = self.lexer.next_token();
        self.at = Ghost(p1);
    }

    fn expect(&mut self, token: Token) -> (r: Result<(), String>)
        requires
            old(self).wf(),
            kind(old(self).current_token@) == kind(token@) ==> number_fits(
                old(self).input(),
                lex_end(old(self).input(), old(self).position()),
            ),
        ensures
            final(self).wf(),
            final(self).input() == old(self).input(),
            r is Ok <==> kind(old(self).current_token@) == kind(token@),
            r is Ok ==> final(self).position() == lex_end(old(self).input(), old(self).position()),
            r is Err ==> final(self).position() == old(self).position(),
            r matches Err(m) ==> m@ == expected_text(token@, old(self).current_token@),
    {
        if kind_of(&self.current_token) == kind_of(&token) {
            self.advance();
            Ok(())
        } else {
            Err(expected_message(&token, &self.current_token))
        }
    }

    /// The name in the current token, if it is an identifier, and the parser moved past it.
    fn take_name(&mut self) -> (r: Option<String>)
        requires
            old(self).wf(),
            old(self).current_token@ is Identifier ==> number_fits(
                old(self).input(),
                lex_end(old(self).input(), old(self).position()),
            ),
        ensures
            final(self).wf(),
            final(self).input() == old(self).input(),
            match lex(old(self).input(), old(self).position()) {
                TokenView::Identifier(t) => r matches Some(n) && n@ == t && final(self).position()
                    == lex_end(old(self).input(), old(self).position()),
                _ => r is None && final(self).position() == old(self).position(),
            },
    {
        let name = match &self.current_token {
            Token::Identifier(id) => Some(id.clone()),
            _ => None,
        };
        if name.is_some() {
            self.advance();
        }
        name
    }

    /// Parses one statement from the current token on.
    pub fn parse(&mut self) -> (r: Result<Ast, String>)
        requires
            old(self).wf(),
            numbers_fit_upto(
                old(self).input(),
                old(self).position(),
                parse_stop(old(self).input(), old(self).position()),
            ),
        ensures
            final(self).wf(),
            final(self).input() == old(self).input(),
            match r {
                Ok(a) => parse_spec(old(self).input(), old(self).position()) == Some(a@),
                Err(m) => parse_spec(old(self).input(), old(self).position()) is None && m@ == parse_error(
                    old(self).input(),
                    old(self).position(),
                ),
            },
    {
        let k = kind_of(&self.current_token);
        if k == 0 {
            self.parse_select()
        } else if k == 3 {
            self.parse_insert()
        } else if k == 6 {
            self.parse_create()
        } else if k == 8 {
            self.parse_delete()
        } else {
            Err(unexpected_start_message(&self.current_token))
        }
    }

    fn parse_select(&mut self) -> (r: Result<Ast, String>)
        requires
            old(self).wf(),
            numbers_fit_upto(
                old(self).input(),
                old(self).position(),
                select_stop(old(self).input(), old(self).position()),
            ),
            old(self).current_token@ is Select,
        ensures
            final(self).wf(),
            final(self).input() == old(self).input(),
            match r {
                Ok(a) => select_spec(old(self).input(), old(self).position()) == Some(a@),
                Err(m) => select_spec(old(self).input(), old(self).position()) is None && m@ == select_error(
                    old(self).input(),
                    old(self).position(),
                ),
            },
    {
        let ghost s = self.input();
        let ghost p0 = self.at@;
        let ghost stop = select_stop(s, p0);
        let ghost r1 = column_list(s, lex_end(s, p0)).1;
        proof {
            lemma_lex_end_advances(s, p0);
            lemma_column_list_end(s, lex_end(s, p0));
            lemma_lex_end_advances(s, r1);
            lemma_lex_end_advances(s, lex_end(s, r1));
            lemma_fit_next(s, p0, stop);
        }
        match self.expect(Token::Select) {
            Ok(()) => {},
            Err(e) => {
                return Err(e);
            },
        }
        let ghost start = self.at@;
        let mut columns: Vec<String> = Vec::new();
        loop
            invariant_except_break
                self.wf(),
                self.input() == s,
                column_list(s, start).0 == texts(columns@) + column_list(s, self.at@).0,
                column_list(s, start).1 == column_list(s, self.at@).1,
                numbers_fit_upto(s, self.at@, stop),
                r1 == column_list(s, start).1,
                r1 <= stop,
            ensures
                self.wf(),
                self.input() == s,
                column_list(s, start).0 == texts(columns@),
                column_list(s, start).1 == self.at@,
                numbers_fit_upto(s, self.at@, stop),
            decreases s.len() - self.at@,
        {
            let ghost a = self.at@;
            proof {
                lemma_lex_end_advances(s, a);
                lemma_column_list_end(s, a);
                if lex(s, a) is Identifier {
                    lemma_fit_next(s, a, stop);
                }
            }
            match self.take_name() {
                Some(name) => {
                    columns.push(name);
                    proof {
                        lemma_lex_end_advances(s, self.at@);
                        if lex(s, self.at@) is Comma {
                            lemma_fit_next(s, self.at@, stop);
                        }
                    }
                    if matches!(self.current_token, Token::Comma) {
                        self.advance();
                        assert(texts(columns@) =~= texts(columns@).drop_last().push(name@));
                    } else {
                        assert(texts(columns@) =~= texts(columns@).drop_last().push(name@));
                        break;
                    }
                },
                None => {
                    break;
                },
            }
        }
        proof {
            if lex(s, r1) is From {
                lemma_fit_next(s, r1, stop);
            }
        }
        match self.expect(Token::From) {
            Ok(()) => {},
            Err(e) => {
                return Err(e);
            },
        }
        proof {
            if lex(s, self.at@) is Identifier {
                lemma_fit_next(s, self.at@, stop);
            }
        }
        match self.take_name() {
            Some(table) => Ok(Ast::Select { columns, table }),
            None => Err(String::from_str("Expected table name")),
        }
    }

    fn parse_insert(&mut self) -> (r: Result<Ast, String>)
        requires
            old(self).wf(),
            numbers_fit_upto(
                old(self).input(),
                old(self).position(),
                insert_stop(old(self).input(), old(self).position()),
            ),
            old(self).current_token@ is Insert,
        ensures
            final(self).wf(),
            final(self).input() == old(self).input(),
            match r {
                Ok(a) => insert_spec(old(self).input(), old(self).position()) == Some(a@),
                Err(m) => insert_spec(old(self).input(), old(self).position()) is None && m@ == insert_error(
                    old(self).input(),
                    old(self).position(),
                ),
            },
    {
        let ghost s = self.input();
        let ghost p0 = self.at@;
        let ghost stop = insert_stop(s, p0);
        let ghost p1 = lex_end(s, p0);
        let ghost p2 = lex_end(s, p1);
        let ghost p3 = lex_end(s, p2);
        let ghost p4 = lex_end(s, p3);
        let ghost p5 = lex_end(s, p4);
        let ghost r1 = value_list(s, p5).1;
        proof {
            lemma_lex_end_advances(s, p0);
            lemma_lex_end_advances(s, p1);
            lemma_lex_end_advances(s, p2);
            lemma_lex_end_advances(s, p3);
            lemma_lex_end_advances(s, p4);
            lemma_value_list_end(s, p5);
            lemma_lex_end_advances(s, r1);
            lemma_fit_next(s, p0, stop);
        }
        match self.expect(Token::Insert) {
            Ok(()) => {},
            Err(e) => {
                return Err(e);
            },
        }
        proof {
            if lex(s, p1) is Into {
                lemma_fit_next(s, p1, stop);
            }
        }
        match self.expect(Token::Into) {
            Ok(()) => {},
            Err(e) => {
                return Err(e);
            },
        }
        proof {
            if lex(s, p2) is Identifier {
                lemma_fit_next(s, p2, stop);
            }
        }
        let table = match self.take_name() {
            Some(t) => t,
            None => {
                return Err(String::from_str("Expected table name"));
            },
        };
        proof {
            if lex(s, p3) is Values {
                lemma_fit_next(s, p3, stop);
            }
        }
        match self.expect(Token::Values) {
            Ok(()) => {},
            Err(e) => {
                return Err(e);
            },
        }
        proof {
            if lex(s, p4) is OpenParen {
                lemma_fit_next(s, p4, stop);
            }
        }
        match self.expect(Token::OpenParen) {
            Ok(()) => {},
            Err(e) => {
                return Err(e);
            },
        }
        let ghost start = self.at@;
        let mut values: Vec<String> = Vec::new();
        loop
            invariant_except_break
                self.wf(),
                self.input() == s,
                value_list(s, start).0 == texts(values@) + value_list(s, self.at@).0,
                value_list(s, start).1 == value_list(s, self.at@).1,
                numbers_fit_upto(s, self.at@, stop),
                r1 == value_list(s, start).1,
                r1 <= stop,
            ensures
                self.wf(),
                self.input() == s,
                value_list(s, start).0 == texts(values@),
                value_list(s, start).1 == self.at@,
                numbers_fit_upto(s, self.at@, stop),
            decreases s.len() - self.at@,
        {
            let ghost a = self.at@;
            proof {
                lemma_lex_end_advances(s, a);
                lemma_value_list_end(s, a);
                if lex(s, a) is Number || lex(s, a) is StringLiteral {
                    lemma_fit_next(s, a, stop);
                }
            }
            let v = match &self.current_token {
                Token::Number(n) => Some(i32_to_string(*n)),
                Token::StringLiteral(x) => Some(x.clone()),
                _ => None,
            };
            match v {
                Some(v) => {
                    values.push(v);
                    self.advance();
                    proof {
                        lemma_lex_end_advances(s, self.at@);
                        if lex(s, self.at@) is Comma {
                            lemma_fit_next(s, self.at@, stop);
                        }
                    }
                    if matches!(self.current_token, Token::Comma) {
                        self.advance();
                        assert(texts(values@) =~= texts(values@).drop_last().push(v@));
                    } else {
                        assert(texts(values@) =~= texts(values@).drop_last().push(v@));
                        break;
                    }
                },
                None => {
                    break;
                },
            }
        }
        proof {
            if lex(s, r1) is CloseParen {
                lemma_fit_next(s, r1, stop);
            }
        }
        match self.expect(Token::CloseParen) {
            Ok(()) => {},
            Err(e) => {
                return Err(e);
            },
        }
        Ok(Ast::Insert { table, values })
    }

    fn parse_create(&mut self) -> (r: Result<Ast, String>)
        requires
            old(self).wf(),
            numbers_fit_upto(
                old(self).input(),
                old(self).position(),
                create_stop(old(self).input(), old(self).position()),
            ),
            old(self).current_token@ is Create,
        ensures
            final(self).wf(),
            final(self).input() == old(self).input(),
            match r {
                Ok(a) => create_spec(old(self).input(), old(self).position()) == Some(a@),
                Err(m) => create_spec(old(self).input(), old(self).position()) is None && m@ == create_error(
                    old(self).input(),
                    old(self).position(),
                ),
            },
    {
        let ghost s = self.input();
        let ghost p0 = self.at@;
        let ghost stop = create_stop(s, p0);
        let ghost p1 = lex_end(s, p0);
        let ghost p2 = lex_end(s, p1);
        let ghost p3 = lex_end(s, p2);
        let ghost p4 = lex_end(s, p3);
        let ghost r1 = column_defs(s, p4).1;
        proof {
            lemma_lex_end_advances(s, p0);
            lemma_lex_end_advances(s, p1);
            lemma_lex_end_advances(s, p2);
            lemma_lex_end_advances(s, p3);
            lemma_column_defs_end(s, p4);
            lemma_lex_end_advances(s, r1);
            lemma_fit_next(s, p0, stop);
        }
        match self.expect(Token::Create) {
            Ok(()) => {},
            Err(e) => {
                return Err(e);
            },
        }
        proof {
            if lex(s, p1) is Table {
                lemma_fit_next(s, p1, stop);
            }
        }
        match self.expect(Token::Table) {
            Ok(()) => {},
            Err(e) => {
                return Err(e);
            },
        }
        proof {
            if lex(s, p2) is Identifier {
                lemma_fit_next(s, p2, stop);
            }
        }
        let table = match self.take_name() {
            Some(t) => t,
            None => {
                return Err(String::from_str("Expected table name"));
            },
        };
        proof {
            if lex(s, p3) is OpenParen {
                lemma_fit_next(s, p3, stop);
            }
        }
        match self.expect(Token::OpenParen) {
            Ok(()) => {},
            Err(e) => {
                return Err(e);
            },
        }
        let ghost start = self.at@;
        let mut columns: Vec<String> = Vec::new();
        loop
            invariant_except_break
                self.wf(),
                self.input() == s,
                column_defs(s, start).0 == texts(columns@) + column_defs(s, self.at@).0,
                column_defs(s, start).1 == column_defs(s, self.at@).1,
                numbers_fit_upto(s, self.at@, stop),
                r1 == column_defs(s, start).1,
                r1 <= stop,
            ensures
                self.wf(),
                self.input() == s,
                column_defs(s, start).0 == texts(columns@),
                column_defs(s, start).1 == self.at@,
                numbers_fit_upto(s, self.at@, stop),
            decreases s.len() - self.at@,
        {
            let ghost a = self.at@;
            proof {
                lemma_lex_end_advances(s, a);
                lemma_column_defs_end(s, a);
                if lex(s, a) is Identifier {
                    lemma_fit_next(s, a, stop);
                }
            }
            match self.take_name() {
                Some(name) => {
                    columns.push(name);
                    proof {
                        lemma_lex_end_advances(s, self.at@);
                        if lex(s, self.at@) is Identifier {
                            lemma_fit_next(s, self.at@, stop);
                        }
                    }
                    if matches!(self.current_token, Token::Identifier(_)) {
                        self.advance();
                    }
                    proof {
                        lemma_lex_end_advances(s, self.at@);
                        if lex(s, self.at@) is Comma {
                            lemma_fit_next(s, self.at@, stop);
                        }
                    }
                    if matches!(self.current_token, Token::Comma) {
                        self.advance();
                        assert(texts(columns@) =~= texts(columns@).drop_last().push(name@));
                    } else {
                        assert(texts(columns@) =~= texts(columns@).drop_last().push(name@));
                        break;
                    }
                },
                None => {
                    break;
                },
            }
        }
        proof {
            if lex(s, r1) is CloseParen {
                lemma_fit_next(s, r1, stop);
            }
        }
        match self.expect(Token::CloseParen) {
            Ok(()) => {},
            Err(e) => {
                return Err(e);
            },
        }
        Ok(Ast::Create { table, columns })
    }

    fn parse_delete(&mut self) -> (r: Result<Ast, String>)
        requires
            old(self).wf(),
            numbers_fit_upto(
                old(self).input(),
                old(self).position(),
                delete_stop(old(self).input(), old(self).position()),
            ),
            old(self).current_token@ is Delete,
        ensures
            final(self).wf(),
            final(self).input() == old(self).input(),
            match r {
                Ok(a) => delete_spec(old(self).input(), old(self).position()) == Some(a@),
                Err(m) => delete_spec(old(self).input(), old(self).position()) is None && m@ == delete_error(
                    old(self).input(),
                    old(self).position(),
                ),
            },
    {
        let ghost s = self.input();
        let ghost p0 = self.at@;
        let ghost stop = delete_stop(s, p0);
        let ghost p1 = lex_end(s, p0);
        let ghost p2 = lex_end(s, p1);
        proof {
            lemma_lex_end_advances(s, p0);
            lemma_lex_end_advances(s, p1);
            lemma_lex_end_advances(s, p2);
            lemma_fit_next(s, p0, stop);
        }
        match self.expect(Token::Delete) {
            Ok(()) => {},
            Err(e) => {
                return Err(e);
            },
        }
        proof {
            if lex(s, p1) is From {
                lemma_fit_next(s, p1, stop);
            }
        }
        match self.expect(Token::From) {
            Ok(()) => {},
            Err(e) => {
                return Err(e);
            },
        }
        proof {
            if lex(s, p2) is Identifier {
                lemma_fit_next(s, p2, stop);
            }
        }
        match self.take_name() {
            Some(table) => Ok(Ast::Delete { table }),
            None => Err(String::from_str("Expected table name")),
        }
    }
}

} // verus!
