use vstd::prelude::*;
use crate::tokens::{SpecToken, Token, TokenType, view_tokens};

verus! {

/// A lexing failure, located by the index of the offending character.
#[derive(Debug, Clone, Copy, PartialEq, Eq, Structural)]
pub enum LexError {
    /// A character that starts no token.
    UnexpectedChar { position: usize, ch: char },
    /// A lone `|` or `&` not followed by the same character.
    IncompleteOperator { position: usize, ch: char },
}

// ---------------------------------------------------------------------------
// Specification
// ---------------------------------------------------------------------------

pub open spec fn is_alpha_spec(c: char) -> bool {
    ('a' as u32 <= c as u32 <= 'z' as u32) || ('A' as u32 <= c as u32 <= 'Z' as u32) || c == '_'
}

pub open spec fn is_digit_spec(c: char) -> bool {
    '0' as u32 <= c as u32 <= '9' as u32
}

pub open spec fn is_alphanumeric_spec(c: char) -> bool {
    is_alpha_spec(c) || is_digit_spec(c)
}

pub open spec fn is_skippable_spec(c: char) -> bool {
    c == ' ' || c == '\t' || c == '\r' || c == '\n'
}

/// End of the run of digits starting at `i`.
pub open spec fn digits_end(s: Seq<char>, i: int) -> int
    decreases s.len() - i,
{
    if 0 <= i < s.len() && is_digit_spec(s[i]) {
        digits_end(s, i + 1)
    } else {
        i
    }
}

/// End of the run of identifier characters starting at `i`.
pub open spec fn word_end(s: Seq<char>, i: int) -> int
    decreases s.len() - i,
{
    if 0 <= i < s.len() && is_alphanumeric_spec(s[i]) {
        word_end(s, i + 1)
    } else {
        i
    }
}

/// End of a line comment whose body starts at `i`: just past the next
/// newline, or the end of input.
pub open spec fn comment_end(s: Seq<char>, i: int) -> int
    decreases s.len() - i,
{
    if i < 0 || i >= s.len() {
        s.len() as int
    } else if s[i] == '\n' {
        i + 1
    } else {
        comment_end(s, i + 1)
    }
}

/// The keyword table; any other word is an identifier.
pub open spec fn word_kind(w: Seq<char>) -> TokenType {
    if w == seq!['l', 'e', 't'] {
        TokenType::Let
    } else if w == seq!['c', 'o', 'n', 's', 't'] {
        TokenType::Const
    } else if w == seq!['f', 'n'] {
        TokenType::Fn
    } else if w == seq!['r', 'e', 't', 'u', 'r', 'n'] {
        TokenType::Return
    } else if w == seq!['i', 'f'] {
        TokenType::If
    } else if w == seq!['e', 'l', 's', 'e'] {
        TokenType::Else
    } else if w == seq!['t', 'r', 'u', 'e'] {
        TokenType::True
    } else if w == seq!['f', 'a', 'l', 's', 'e'] {
        TokenType::False
    } else {
        TokenType::Identifier
    }
}

/// Characters that always form a token on their own.
pub open spec fn single_kind(c: char) -> Option<TokenType> {
    if c == '(' {
        Some(TokenType::OpenParen)
    } else if c == ')' {
        Some(TokenType::CloseParen)
    } else if c == '{' {
        Some(TokenType::OpenBrace)
    } else if c == '}' {
        Some(TokenType::CloseBrace)
    } else if c == ':' {
        Some(TokenType::Colon)
    } else {
        None
    }
}

/// Characters that form a token alone, or a longer one when followed by `=`:
/// the pair (alone, followed by `=`).
pub open spec fn pair_kinds(c: char) -> Option<(TokenType, TokenType)> {
    if c == '=' {
        Some((TokenType::Equals, TokenType::EqualsEquals))
    } else if c == '!' {
        Some((TokenType::Not, TokenType::NotEqual))
    } else if c == '<' {
        Some((TokenType::LessThan, TokenType::LessThanEqual))
    } else if c == '>' {
        Some((TokenType::GreaterThan, TokenType::GreaterThanEqual))
    } else if c == '+' {
        Some((TokenType::Plus, TokenType::PlusEquals))
    } else if c == '-' {
        Some((TokenType::Minus, TokenType::MinusEquals))
    } else if c == '*' {
        Some((TokenType::Star, TokenType::StarEquals))
    } else if c == '/' {
        Some((TokenType::Slash, TokenType::SlashEquals))
    } else if c == '%' {
        Some((TokenType::Percent, TokenType::PercentEquals))
    } else {
        None
    }
}

pub open spec fn text_token(kind: TokenType, s: Seq<char>, i: int, j: int) -> SpecToken {
    SpecToken { kind, text: s.subrange(i, j) }
}

/// One scanning step at `i` (which must be inside `s`): the token read there,
/// if any, and the index where scanning resumes.
pub open spec fn scan(s: Seq<char>, i: int) -> Result<(Option<SpecToken>, int), LexError> {
    let c = s[i];
    if is_skippable_spec(c) {
        Ok((None, i + 1))
    } else if c == '#' {
        Ok((None, comment_end(s, i + 1)))
    } else if is_digit_spec(c) {
        let j = digits_end(s, i);
        Ok((Some(text_token(TokenType::Number, s, i, j)), j))
    } else if is_alpha_spec(c) {
        let j = word_end(s, i);
        Ok((Some(text_token(word_kind(s.subrange(i, j)), s, i, j)), j))
    } else if single_kind(c).is_some() {
        Ok((Some(text_token(single_kind(c).unwrap(), s, i, i + 1)), i + 1))
    } else if pair_kinds(c).is_some() {
        if i + 1 < s.len() && s[i + 1] == '=' {
            Ok((Some(text_token(pair_kinds(c).unwrap().1, s, i, i + 2)), i + 2))
        } else {
            Ok((Some(text_token(pair_kinds(c).unwrap().0, s, i, i + 1)), i + 1))
        }
    } else if c == '|' || c == '&' {
        if i + 1 < s.len() && s[i + 1] == c {
            let k = if c == '|' { TokenType::Or } else { TokenType::And };
            Ok((Some(text_token(k, s, i, i + 2)), i + 2))
        } else {
            Err(LexError::IncompleteOperator { position: i as usize, ch: c })
        }
    } else {
        Err(LexError::UnexpectedChar { position: i as usize, ch: c })
    }
}

pub open spec fn end_token() -> SpecToken {
    SpecToken { kind: TokenType::EndOfInput, text: Seq::empty() }
}

/// Puts `p` in front of the tokens of a successful result.
pub open spec fn prepend(p: Seq<SpecToken>, r: Result<Seq<SpecToken>, LexError>) -> Result<
    Seq<SpecToken>,
    LexError,
> {
    match r {
        Ok(t) => Ok(p + t),
        Err(e) => Err(e),
    }
}

pub open spec fn opt_seq(t: Option<SpecToken>) -> Seq<SpecToken> {
    match t {
        Some(t) => seq![t],
        None => Seq::empty(),
    }
}

/// The tokens of `s` from index `i` on.
pub open spec fn lex_from(s: Seq<char>, i: int) -> Result<Seq<SpecToken>, LexError>
    decreases s.len() - i,
{
    if i < 0 || i >= s.len() {
        Ok(seq![end_token()])
    } else {
        match scan(s, i) {
            Err(e) => Err(e),
            Ok((t, j)) => {
                proof {
                    lemma_scan_advances(s, i);
                }
                prepend(opt_seq(t), lex_from(s, j))
            },
        }
    }
}

/// The tokens of a whole source text.
pub open spec fn lex_spec(s: Seq<char>) -> Result<Seq<SpecToken>, LexError> {
    lex_from(s, 0)
}

// ---------------------------------------------------------------------------
// Lemmas
// ---------------------------------------------------------------------------

proof fn lemma_digits_end(s: Seq<char>, i: int)
    requires
        0 <= i <= s.len(),
    ensures
        i <= digits_end(s, i) <= s.len(),
        forall|k: int| i <= k < digits_end(s, i) ==> is_digit_spec(#[trigger] s[k]),
    decreases s.len() - i,
{
    if i < s.len() && is_digit_spec(s[i]) {
        lemma_digits_end(s, i + 1);
    }
}

proof fn lemma_word_end(s: Seq<char>, i: int)
    requires
        0 <= i <= s.len(),
    ensures
        i <= word_end(s, i) <= s.len(),
    decreases s.len() - i,
{
    if i < s.len() && is_alphanumeric_spec(s[i]) {
        lemma_word_end(s, i + 1);
    }
}

proof fn lemma_comment_end(s: Seq<char>, i: int)
    requires
        0 <= i <= s.len(),
    ensures
        i <= comment_end(s, i) <= s.len(),
    decreases s.len() - i,
{
    if i < s.len() && s[i] != '\n' {
        lemma_comment_end(s, i + 1);
    }
}

/// Every successful scanning step consumes at least one character and stays
/// inside the text.
pub proof fn lemma_scan_advances(s: Seq<char>, i: int)
    requires
        0 <= i < s.len(),
    ensures
        scan(s, i) matches Ok((_, j)) ==> i < j <= s.len(),
{
    lemma_digits_end(s, i);
    lemma_word_end(s, i);
    lemma_comment_end(s, i + 1);
    if is_digit_spec(s[i]) {
        lemma_digits_end(s, i + 1);
    }
    if is_alpha_spec(s[i]) {
        lemma_word_end(s, i + 1);
    }
}

/// A successful lexing ends with exactly one end-of-input token, and no
/// other token is one.
pub proof fn lemma_lex_from_ends_with_end(s: Seq<char>, i: int)
    ensures
        lex_from(s, i) matches Ok(t) ==> t.len() >= 1 && t.last() == end_token() && forall|
            k: int,
        | 0 <= k < t.len() - 1 ==> #[trigger] t[k].kind != TokenType::EndOfInput,
    decreases s.len() - i,
{
    if 0 <= i < s.len() {
        lemma_scan_advances(s, i);
        if let Ok((t, j)) = scan(s, i) {
            lemma_lex_from_ends_with_end(s, j);
            if let Ok(rest) = lex_from(s, j) {
                let all = opt_seq(t) + rest;
                assert(all.last() == rest.last());
                assert forall|k: int| 0 <= k < all.len() - 1 implies #[trigger] all[k].kind
                    != TokenType::EndOfInput by {
                    if t.is_some() && k == 0 {
                    } else {
                        assert(all[k] == rest[k - opt_seq(t).len()]);
                    }
                }
            }
        }
    }
}

/// Lexing a text that lexes successfully yields a sequence whose last token is
/// the end-of-input sentinel, and the result is a function of the text alone.
pub proof fn lemma_lex_ends_with_end(s1: Seq<char>, s2: Seq<char>)
    requires
        s1 == s2,
    ensures
        lex_spec(s1) == lex_spec(s2),
        lex_spec(s1) matches Ok(t) ==> t.len() >= 1 && t.last().kind == TokenType::EndOfInput,
{
    lemma_lex_from_ends_with_end(s1, 0);
}

// ---------------------------------------------------------------------------
// Implementation
// ---------------------------------------------------------------------------

/// Relies on String::push: appends one character to the string.
#[verifier::external_body]
pub(crate) fn push_char(s: &mut String, c: char)
    ensures
        final(s)@ == old(s)@.push(c),
{
    s.push(c);
}

pub fn is_alpha(ch: char) -> (r: bool)
    ensures
        r == is_alpha_spec(ch),
{
    let u = ch as u32;
    ('a' as u32 <= u && u <= 'z' as u32) || ('A' as u32 <= u && u <= 'Z' as u32) || ch == '_'
}

pub fn is_digit(ch: char) -> (r: bool)
    ensures
        r == is_digit_spec(ch),
{
    let u = ch as u32;
    '0' as u32 <= u && u <= '9' as u32
}

pub fn is_alphanumeric(ch: char) -> (r: bool)
    ensures
        r == is_alphanumeric_spec(ch),
{
    is_alpha(ch) || is_digit(ch)
}

pub fn is_skippable(ch: char) -> (r: bool)
    ensures
        r == is_skippable_spec(ch),
{
    ch == ' ' || ch == '\t' || ch == '\r' || ch == '\n'
}

/// The text `s[i..j]` as a string.
fn slice_text(s: &Vec<char>, i: usize, j: usize) -> (r: String)
    requires
        i <= j <= s.len(),
    ensures
        r@ == s@.subrange(i as int, j as int),
{
    let mut r = String::new();
    let mut k = i;
    while k < j
        invariant
            i <= k <= j <= s.len(),
            r@ == s@.subrange(i as int, k as int),
        decreases j - k,
    {
        push_char(&mut r, s[k]);
        k = k + 1;
        assert(r@ =~= s@.subrange(i as int, k as int));
    }
    r
}

/// Whether `s[i..j]` spells the word `w`.
fn spells(s: &Vec<char>, i: usize, j: usize, w: &[char]) -> (r: bool)
    requires
        i <= j <= s.len(),
    ensures
        r == (s@.subrange(i as int, j as int) == w@),
{
    if j - i != w.len() {
        return false;
    }
    let mut k: usize = 0;
    while k < w.len()
        invariant
            i <= j <= s.len(),
            j - i == w@.len(),
            k <= w@.len(),
            forall|m: int| 0 <= m < k ==> s@[i + m] == w@[m],
        decreases w.len() - k,
    {
        if s[i + k] != w[k] {
            assert(s@.subrange(i as int, j as int)[k as int] != w@[k as int]);
            return false;
        }
        k = k + 1;
    }
    assert(s@.subrange(i as int, j as int) =~= w@);
    true
}

fn word_kind_of(s: &Vec<char>, i: usize, j: usize) -> (r: TokenType)
    requires
        i <= j <= s.len(),
    ensures
        r == word_kind(s@.subrange(i as int, j as int)),
{
    let ghost w = s@.subrange(i as int, j as int);
    let kw_let = ['l', 'e', 't'];
    let kw_const = ['c', 'o', 'n', 's', 't'];
    let kw_fn = ['f', 'n'];
    let kw_return = ['r', 'e', 't', 'u', 'r', 'n'];
    let kw_if = ['i', 'f'];
    let kw_else = ['e', 'l', 's', 'e'];
    let kw_true = ['t', 'r', 'u', 'e'];
    let kw_false = ['f', 'a', 'l', 's', 'e'];
    assert(kw_let@ =~= seq!['l', 'e', 't']);
    assert(kw_const@ =~= seq!['c', 'o', 'n', 's', 't']);
    assert(kw_fn@ =~= seq!['f', 'n']);
    assert(kw_return@ =~= seq!['r', 'e', 't', 'u', 'r', 'n']);
    assert(kw_if@ =~= seq!['i', 'f']);
    assert(kw_else@ =~= seq!['e', 'l', 's', 'e']);
    assert(kw_true@ =~= seq!['t', 'r', 'u', 'e']);
    assert(kw_false@ =~= seq!['f', 'a', 'l', 's', 'e']);
    if spells(s, i, j, &kw_let) {
        TokenType::Let
    } else if spells(s, i, j, &kw_const) {
        TokenType::Const
    } else if spells(s, i, j, &kw_fn) {
        TokenType::Fn
    } else if spells(s, i, j, &kw_return) {
        TokenType::Return
    } else if spells(s, i, j, &kw_if) {
        TokenType::If
    } else if spells(s, i, j, &kw_else) {
        TokenType::Else
    } else if spells(s, i, j, &kw_true) {
        TokenType::True
    } else if spells(s, i, j, &kw_false) {
        TokenType::False
    } else {
        TokenType::Identifier
    }
}

fn single_kind_of(c: char) -> (r: Option<TokenType>)
    ensures
        r == single_kind(c),
{
    if c == '(' {
        Some(TokenType::OpenParen)
    } else if c == ')' {
        Some(TokenType::CloseParen)
    } else if c == '{' {
        Some(TokenType::OpenBrace)
    } else if c == '}' {
        Some(TokenType::CloseBrace)
    } else if c == ':' {
        Some(TokenType::Colon)
    } else {
        None
    }
}

fn pair_kinds_of(c: char) -> (r: Option<(TokenType, TokenType)>)
    ensures
        r == pair_kinds(c),
{
    if c == '=' {
        Some((TokenType::Equals, TokenType::EqualsEquals))
    } else if c == '!' {
        Some((TokenType::Not, TokenType::NotEqual))
    } else if c == '<' {
        Some((TokenType::LessThan, TokenType::LessThanEqual))
    } else if c == '>' {
        Some((TokenType::GreaterThan, TokenType::GreaterThanEqual))
    } else if c == '+' {
        Some((TokenType::Plus, TokenType::PlusEquals))
    } else if c == '-' {
        Some((TokenType::Minus, TokenType::MinusEquals))
    } else if c == '*' {
        Some((TokenType::Star, TokenType::StarEquals))
    } else if c == '/' {
        Some((TokenType::Slash, TokenType::SlashEquals))
    } else if c == '%' {
        Some((TokenType::Percent, TokenType::PercentEquals))
    } else {
        None
    }
}

/// Reads tokens from a character buffer.
pub struct Lexer {
    pub src: Vec<char>,
    pos: usize,
}

impl Lexer {
    /// The characters being read.
    pub closed spec fn text(&self) -> Seq<char> {
        self.src@
    }

    /// The index of the next character to read.
    pub closed spec fn position(&self) -> nat {
        self.pos as nat
    }

    pub fn new(src: Vec<char>) -> (r: Lexer)
        ensures
            r.text() == src@,
            r.position() == 0,
    {
        Lexer { src, pos: 0 }
    }

    /// The character at the read position, or `'\0'` past the end.
    fn peek(&self) -> (c: char)
        ensures
            self.pos < self.src.len() ==> c == self.src@[self.pos as int],
            self.pos >= self.src.len() ==> c == '\0',
    {
        if self.pos >= self.src.len() {
            '\0'
        } else {
            self.src[self.pos]
        }
    }

    /// Returns the character at the read position and moves past it.
    fn read(&mut self) -> (c: char)
        requires
            old(self).pos < old(self).src.len(),
        ensures
            c == old(self).src@[old(self).pos as int],
            final(self).pos == old(self).pos + 1,
            final(self).src == old(self).src,
    {
        let ch = self.peek();
        self.pos = self.pos + 1;
        ch
    }

    fn skip_digits(&mut self)
        requires
            old(self).pos <= old(self).src.len(),
        ensures
            final(self).pos == digits_end(old(self).src@, old(self).pos as int),
            old(self).pos <= final(self).pos <= old(self).src.len(),
            final(self).src == old(self).src,
    {
        let ghost start = self.pos as int;
        while self.pos < self.src.len() && is_digit(self.peek())
            invariant
                start <= self.pos <= self.src.len(),
                start == old(self).pos,
                self.src == old(self).src,
                digits_end(self.src@, start) == digits_end(self.src@, self.pos as int),
            decreases self.src.len() - self.pos,
        {
            self.read();
        }
    }

    fn skip_word(&mut self)
        requires
            old(self).pos <= old(self).src.len(),
        ensures
            final(self).pos == word_end(old(self).src@, old(self).pos as int),
            old(self).pos <= final(self).pos <= old(self).src.len(),
            final(self).src == old(self).src,
    {
        let ghost start = self.pos as int;
        while self.pos < self.src.len() && is_alphanumeric(self.peek())
            invariant
                start <= self.pos <= self.src.len(),
                start == old(self).pos,
                self.src == old(self).src,
                word_end(self.src@, start) == word_end(self.src@, self.pos as int),
            decreases self.src.len() - self.pos,
        {
            self.read();
        }
    }

    fn skip_comment(&mut self)
        requires
            old(self).pos <= old(self).src.len(),
        ensures
            final(self).pos == comment_end(old(self).src@, old(self).pos as int),
            old(self).pos <= final(self).pos <= old(self).src.len(),
            final(self).src == old(self).src,
    {
        let ghost start = self.pos as int;
        while self.pos < self.src.len()
            invariant
                start <= self.pos <= self.src.len(),
                start == old(self).pos,
                self.src == old(self).src,
                comment_end(self.src@, start) == comment_end(self.src@, self.pos as int),
            decreases self.src.len() - self.pos,
        {
            let ghost p = self.pos as int;
            let c = self.read();
            if c == '\n' {
                assert(comment_end(self.src@, p) == p + 1);
                return ;
            }
        }
    }

    fn token(&self, kind: TokenType, start: usize) -> (t: Token)
        requires
            start <= self.pos <= self.src.len(),
        ensures
            t@ == text_token(kind, self.src@, start as int, self.pos as int),
    {
        Token { value: slice_text(&self.src, start, self.pos), kind }
    }

    /// One scanning step at the read position.
    fn scan_one(&mut self) -> (r: Result<Option<Token>, LexError>)
        requires
            old(self).pos < old(self).src.len(),
        ensures
            final(self).src == old(self).src,
            match scan(old(self).src@, old(self).pos as int) {
                Ok((t, j)) => r matches Ok(u) && final(self).pos == j && match u {
                    Some(u) => t == Some(u@),
                    None => t.is_none(),
                },
                Err(e) => r == Err::<Option<Token>, LexError>(e),
            },
    {
        let start = self.pos;
        let c = self.read();
        if is_skippable(c) {
            Ok(None)
        } else if c == '#' {
            self.skip_comment();
            Ok(None)
        } else if is_digit(c) {
            self.skip_digits();
            Ok(Some(self.token(TokenType::Number, start)))
        } else if is_alpha(c) {
            self.skip_word();
            let kind = word_kind_of(&self.src, start, self.pos);
            Ok(Some(self.token(kind, start)))
        } else if let Some(kind) = single_kind_of(c) {
            Ok(Some(self.token(kind, start)))
        } else if let Some((alone, with_eq)) = pair_kinds_of(c) {
            if self.pos < self.src.len() && self.peek() == '=' {
                self.read();
                Ok(Some(self.token(with_eq, start)))
            } else {
                Ok(Some(self.token(alone, start)))
            }
        } else if c == '|' || c == '&' {
            if self.pos < self.src.len() && self.peek() == c {
                self.read();
                let kind = if c == '|' {
                    TokenType::Or
                } else {
                    TokenType::And
                };
                Ok(Some(self.token(kind, start)))
            } else {
                Err(LexError::IncompleteOperator { position: start, ch: c })
            }
        } else {
            Err(LexError::UnexpectedChar { position: start, ch: c })
        }
    }

    /// Reads the remaining characters into tokens, closed by one
    /// end-of-input token.
    pub fn lex(&mut self) -> (r: Result<Vec<Token>, LexError>)
        requires
            old(self).position() <= old(self).text().len(),
        ensures
            final(self).text() == old(self).text(),
            match lex_from(old(self).text(), old(self).position() as int) {
                Ok(t) => r matches Ok(v) && view_tokens(v@) == t,
                Err(e) => r == Err::<Vec<Token>, LexError>(e),
            },
    {
        let ghost s = self.src@;
        let ghost start = self.pos as int;
        let mut tokens: Vec<Token> = Vec::new();
        while self.pos < self.src.len()
            invariant
                self.src@ == s,
                s == old(self).src@,
                start == old(self).pos,
                self.pos <= s.len(),
                lex_from(s, start) == prepend(view_tokens(tokens@), lex_from(s, self.pos as int)),
            decreases s.len() - self.pos,
        {
            let ghost before = view_tokens(tokens@);
            let ghost p = self.pos as int;
            let step = self.scan_one();
            match step {
                Err(e) => {
                    return Err(e);
                },
                Ok(t) => {
                    proof {
                        lemma_scan_advances(s, p);
                    }
                    let ghost got = match &t {
                        Some(u) => Some(u@),
                        None => None,
                    };
                    if let Some(u) = t {
                        tokens.push(u);
                    }
                    assert(view_tokens(tokens@) =~= before + opt_seq(got));
                    proof {
                        let rest = lex_from(s, self.pos as int);
                        match rest {
                            Ok(x) => {
                                assert(before + (opt_seq(got) + x) =~= (before + opt_seq(got))
                                    + x);
                            },
                            Err(_) => {},
                        }
                    }
                },
            }
        }
        let ghost before = view_tokens(tokens@);
        tokens.push(Token { value: String::new(), kind: TokenType::EndOfInput });
        assert(view_tokens(tokens@) =~= before + seq![end_token()]);
        Ok(tokens)
    }
}

} // verus!
