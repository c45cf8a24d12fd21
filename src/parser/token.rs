use vstd::prelude::*;

use crate::value::{Value, ValueView};

verus! {

/// Why a query could not be read.
#[derive(Debug, Clone, Copy, PartialEq, Eq, Structural)]
pub enum ParseError {
    /// A character that starts no token.
    InvalidToken,
    /// A string literal without its closing quote, or with a backslash not before a quote.
    InvalidStringLiteral,
    /// An integer literal too large for a 32-bit integer.
    InvalidNumber,
    /// The tokens form no statement.
    InvalidQuery,
}

/// A token of a query.
#[derive(Debug, Clone, PartialEq, Eq)]
pub enum Token {
    Ident(String),
    Lit(Value),
    Asterisk,
    Semicolon,
    Comma,
    LeftParen,
    RightParen,
    KeywordCreate,
    KeywordTable,
    KeywordInsert,
    KeywordInto,
    KeywordValues,
    KeywordSelect,
    KeywordFrom,
    KeywordInt,
    KeywordVarchar,
    EOF,
}

/// What a token holds.
pub enum TokenView {
    Ident(Seq<char>),
    Lit(ValueView),
    Asterisk,
    Semicolon,
    Comma,
    LeftParen,
    RightParen,
    KeywordCreate,
    KeywordTable,
    KeywordInsert,
    KeywordInto,
    KeywordValues,
    KeywordSelect,
    KeywordFrom,
    KeywordInt,
    KeywordVarchar,
    EOF,
}

impl View for Token {
    type V = TokenView;

    open spec fn view(&self) -> TokenView {
        match self {
            Token::Ident(s) => TokenView::Ident(s@),
            Token::Lit(v) => TokenView::Lit(v@),
            Token::Asterisk => TokenView::Asterisk,
            Token::Semicolon => TokenView::Semicolon,
            Token::Comma => TokenView::Comma,
            Token::LeftParen => TokenView::LeftParen,
            Token::RightParen => TokenView::RightParen,
            Token::KeywordCreate => TokenView::KeywordCreate,
            Token::KeywordTable => TokenView::KeywordTable,
            Token::KeywordInsert => TokenView::KeywordInsert,
            Token::KeywordInto => TokenView::KeywordInto,
            Token::KeywordValues => TokenView::KeywordValues,
            Token::KeywordSelect => TokenView::KeywordSelect,
            Token::KeywordFrom => TokenView::KeywordFrom,
            Token::KeywordInt => TokenView::KeywordInt,
            Token::KeywordVarchar => TokenView::KeywordVarchar,
            Token::EOF => TokenView::EOF,
        }
    }
}

/// Whether Unicode counts `c` as alphabetic.
pub uninterp spec fn alphabetic(c: char) -> bool;

/// Whether Unicode counts `c` as white space.
pub uninterp spec fn white_space(c: char) -> bool;

/// The upper-case form of a string under Unicode's case mapping.
pub uninterp spec fn upper_of(s: Seq<char>) -> Seq<char>;

/// Relies on `char::is_alphabetic`, which depends on the character alone.
#[verifier::external_body]
fn is_alphabetic(c: char) -> (r: bool)
    ensures
        r == alphabetic(c),
{
    c.is_alphabetic()
}

/// Relies on `char::is_whitespace`, which depends on the character alone.
#[verifier::external_body]
fn is_whitespace(c: char) -> (r: bool)
    ensures
        r == white_space(c),
{
    c.is_whitespace()
}

/// Relies on `str::to_uppercase`, which depends on the characters alone.
#[verifier::external_body]
fn to_uppercase(s: &str) -> (r: String)
    ensures
        r@ == upper_of(s@),
{
    s.to_uppercase()
}

/// Relies on `str::chars`: the characters of the string, in order.
#[verifier::external_body]
pub(crate) fn chars_of(s: &str) -> (r: Vec<char>)
    ensures
        r@ == s@,
{
    s.chars().collect()
}

/// Relies on collecting characters into a `String`: the string of those characters.
#[verifier::external_body]
pub(crate) fn string_of(cs: &[char]) -> (r: String)
    ensures
        r@ == cs@,
{
    cs.iter().collect()
}

/// Whether `c` is a decimal digit.
pub open spec fn is_digit(c: char) -> bool {
    '0' <= c <= '9'
}

/// Whether `c` can start a word.
pub open spec fn is_word_start(c: char) -> bool {
    c == '_' || alphabetic(c)
}

/// Whether `c` can continue a word.
pub open spec fn is_word_char(c: char) -> bool {
    c == '_' || is_digit(c) || alphabetic(c)
}

/// The end of the run of word characters that starts at `i`.
pub open spec fn word_end(cs: Seq<char>, i: int) -> int
    decreases cs.len() - i,
{
    if 0 <= i < cs.len() && is_word_char(cs[i]) {
        word_end(cs, i + 1)
    } else {
        i
    }
}

/// The end of the run of digits that starts at `i`.
pub open spec fn digits_end(cs: Seq<char>, i: int) -> int
    decreases cs.len() - i,
{
    if 0 <= i < cs.len() && is_digit(cs[i]) {
        digits_end(cs, i + 1)
    } else {
        i
    }
}

/// The number that a run of decimal digits writes.
pub open spec fn digits_value(ds: Seq<char>) -> int
    decreases ds.len(),
{
    if ds.len() == 0 {
        0
    } else {
        digits_value(ds.drop_last()) * 10 + (ds.last() as int - '0' as int)
    }
}

/// The body of a string literal that starts at `i`, just after its opening quote: its
/// characters, with `\'` standing for a quote, and the position after the closing quote.
pub open spec fn string_body(cs: Seq<char>, i: int) -> Option<(Seq<char>, int)>
    decreases cs.len() - i,
{
    if i < 0 || i >= cs.len() {
        None
    } else if cs[i] == '\'' {
        Some((Seq::empty(), i + 1))
    } else if cs[i] == '\\' {
        if i + 1 < cs.len() && cs[i + 1] == '\'' {
            match string_body(cs, i + 2) {
                Some((s, j)) => Some((seq!['\''] + s, j)),
                None => None,
            }
        } else {
            None
        }
    } else {
        match string_body(cs, i + 1) {
            Some((s, j)) => Some((seq![cs[i]] + s, j)),
            None => None,
        }
    }
}

/// The token of a punctuation character.
pub open spec fn punct_token(c: char) -> Option<TokenView> {
    if c == ',' {
        Some(TokenView::Comma)
    } else if c == '(' {
        Some(TokenView::LeftParen)
    } else if c == ')' {
        Some(TokenView::RightParen)
    } else if c == '*' {
        Some(TokenView::Asterisk)
    } else if c == ';' {
        Some(TokenView::Semicolon)
    } else {
        None
    }
}

/// The token of a word: a keyword where its upper-case form is one, else an identifier.
pub open spec fn word_token(w: Seq<char>) -> TokenView {
    word_token_by(w, upper_of(w))
}

/// The token of word `w` whose upper-case form is `u`: the keyword `u` spells, else an
/// identifier.
pub open spec fn word_token_by(w: Seq<char>, u: Seq<char>) -> TokenView {
    if u == "CREATE"@ {
        TokenView::KeywordCreate
    } else if u == "TABLE"@ {
        TokenView::KeywordTable
    } else if u == "INSERT"@ {
        TokenView::KeywordInsert
    } else if u == "INTO"@ {
        TokenView::KeywordInto
    } else if u == "VALUES"@ {
        TokenView::KeywordValues
    } else if u == "SELECT"@ {
        TokenView::KeywordSelect
    } else if u == "FROM"@ {
        TokenView::KeywordFrom
    } else if u == "INT"@ {
        TokenView::KeywordInt
    } else if u == "VARCHAR"@ {
        TokenView::KeywordVarchar
    } else {
        TokenView::Ident(w)
    }
}

/// Puts `t` in front of a token sequence, where there is one.
pub open spec fn cons(t: TokenView, r: Result<Seq<TokenView>, ParseError>) -> Result<Seq<TokenView>, ParseError> {
    match r {
        Ok(ts) => Ok(seq![t] + ts),
        Err(e) => Err(e),
    }
}

proof fn lemma_word_end(cs: Seq<char>, i: int)
    ensures
        0 <= i < cs.len() && is_word_char(cs[i]) ==> i < word_end(cs, i) <= cs.len(),
        i <= word_end(cs, i),
        0 <= i <= cs.len() ==> word_end(cs, i) <= cs.len(),
    decreases cs.len() - i,
{
    if 0 <= i < cs.len() && is_word_char(cs[i]) {
        lemma_word_end(cs, i + 1);
    }
}

proof fn lemma_digits_end(cs: Seq<char>, i: int)
    ensures
        0 <= i < cs.len() && is_digit(cs[i]) ==> i < digits_end(cs, i) <= cs.len(),
        i <= digits_end(cs, i),
        0 <= i <= cs.len() ==> digits_end(cs, i) <= cs.len(),
    decreases cs.len() - i,
{
    if 0 <= i < cs.len() && is_digit(cs[i]) {
        lemma_digits_end(cs, i + 1);
    }
}

proof fn lemma_string_body_end(cs: Seq<char>, i: int)
    ensures
        string_body(cs, i) matches Some((s, j)) ==> i < j <= cs.len(),
    decreases cs.len() - i,
{
    if 0 <= i < cs.len() && cs[i] != '\'' {
        if cs[i] == '\\' {
            if i + 1 < cs.len() {
                lemma_string_body_end(cs, i + 2);
            }
        } else {
            lemma_string_body_end(cs, i + 1);
        }
    }
}

#[via_fn]
proof fn lex_decreases(cs: Seq<char>, i: int) {
    lemma_word_end(cs, i);
    lemma_digits_end(cs, i);
    lemma_string_body_end(cs, i + 1);
}

/// The tokens of `cs` from `i` on, ending with `EOF`: white space is skipped; a word is a
/// keyword or an identifier; a run of digits is an integer literal; a quoted string is a
/// string literal; a few characters are punctuation; any other character is refused.
pub open spec fn lex(cs: Seq<char>, i: int) -> Result<Seq<TokenView>, ParseError>
    decreases cs.len() - i,
    via lex_decreases
{
    if i < 0 || i >= cs.len() {
        Ok(seq![TokenView::EOF])
    } else {
        let c = cs[i];
        if white_space(c) {
            lex(cs, i + 1)
        } else if is_word_start(c) {
            let j = word_end(cs, i);
            if i < j <= cs.len() {
                cons(word_token(cs.subrange(i, j)), lex(cs, j))
            } else {
                Err(ParseError::InvalidToken)
            }
        } else if punct_token(c) is Some {
            cons(punct_token(c)->Some_0, lex(cs, i + 1))
        } else if is_digit(c) {
            let j = digits_end(cs, i);
            if i < j <= cs.len() {
                let v = digits_value(cs.subrange(i, j));
                if v > i32::MAX {
                    Err(ParseError::InvalidNumber)
                } else {
                    cons(TokenView::Lit(ValueView::Int(v as i32)), lex(cs, j))
                }
            } else {
                Err(ParseError::InvalidToken)
            }
        } else if c == '\'' {
            match string_body(cs, i + 1) {
                None => Err(ParseError::InvalidStringLiteral),
                Some((s, j)) => if i < j <= cs.len() {
                    cons(TokenView::Lit(ValueView::Varchar(s)), lex(cs, j))
                } else {
                    Err(ParseError::InvalidStringLiteral)
                },
            }
        } else {
            Err(ParseError::InvalidToken)
        }
    }
}

/// Puts the tokens `ps` in front of a token sequence, where there is one.
pub open spec fn prepend(ps: Seq<TokenView>, r: Result<Seq<TokenView>, ParseError>) -> Result<Seq<TokenView>, ParseError> {
    match r {
        Ok(ts) => Ok(ps + ts),
        Err(e) => Err(e),
    }
}

/// Puts the characters `b` in front of a string body, where there is one.
pub open spec fn prepend_body(b: Seq<char>, r: Option<(Seq<char>, int)>) -> Option<(Seq<char>, int)> {
    match r {
        Some((s, j)) => Some((b + s, j)),
        None => None,
    }
}

proof fn lemma_digits_value_nonneg(ds: Seq<char>)
    requires
        forall|k: int| 0 <= k < ds.len() ==> is_digit(#[trigger] ds[k]),
    ensures
        digits_value(ds) >= 0,
    decreases ds.len(),
{
    if ds.len() > 0 {
        lemma_digits_value_nonneg(ds.drop_last());
    }
}

/// The token of a word, by its upper-case form.
fn word_to_token(word: String) -> (r: Token)
    ensures
        r@ == word_token(word@),
{
    let upper = to_uppercase(word.as_str());
    token_of_word(word, &upper)
}

/// The token of `word`, given its upper-case form `upper`: the keyword that `upper`
/// spells, else an identifier.
pub fn token_of_word(word: String, upper: &String) -> (r: Token)
    ensures
        r@ == word_token_by(word@, upper@),
{
    let upper = upper.clone();
    if upper == "CREATE".to_owned() {
        Token::KeywordCreate
    } else if upper == "TABLE".to_owned() {
        Token::KeywordTable
    } else if upper == "INSERT".to_owned() {
        Token::KeywordInsert
    } else if upper == "INTO".to_owned() {
        Token::KeywordInto
    } else if upper == "VALUES".to_owned() {
        Token::KeywordValues
    } else if upper == "SELECT".to_owned() {
        Token::KeywordSelect
    } else if upper == "FROM".to_owned() {
        Token::KeywordFrom
    } else if upper == "INT".to_owned() {
        Token::KeywordInt
    } else if upper == "VARCHAR".to_owned() {
        Token::KeywordVarchar
    } else {
        Token::Ident(word)
    }
}

/// Splits a query into tokens as `lex` describes.
pub fn tokenize(sql: &str) -> (r: Result<Vec<Token>, ParseError>)
    ensures
        match lex(sql@, 0) {
            Ok(ts) => r matches Ok(v) && v@.map_values(|t: Token| t@) == ts,
            Err(e) => r == Err::<Vec<Token>, ParseError>(e),
        },
{
    let cs = chars_of(sql);
    let n = cs.len();
    let mut tokens: Vec<Token> = Vec::new();
    let mut i: usize = 0;
    assert(tokens@.map_values(|t: Token| t@) =~= Seq::<TokenView>::empty());
    assert(Seq::<TokenView>::empty() + seq![TokenView::EOF] =~= seq![TokenView::EOF]);
    while i < n
        invariant
            cs@ == sql@,
            n == cs@.len(),
            i <= n,
            lex(cs@, 0) == prepend(tokens@.map_values(|t: Token| t@), lex(cs@, i as int)),
        decreases n - i,
    {
        let ghost tv = tokens@.map_values(|t: Token| t@);
        let c = cs[i];
        if is_whitespace(c) {
            i = i + 1;
        } else if c == '_' || is_alphabetic(c) {
            let start = i;
            let mut j = i;
            proof {
                lemma_word_end(cs@, i as int);
            }
            while j < n && (cs[j] == '_' || (cs[j] >= '0' && cs[j] <= '9') || is_alphabetic(cs[j]))
                invariant
                    n == cs@.len(),
                    start <= j <= n,
                    word_end(cs@, start as int) == word_end(cs@, j as int),
                decreases n - j,
            {
                j = j + 1;
            }
            let word = string_of(vstd::slice::slice_subrange(cs.as_slice(), start, j));
            let t = word_to_token(word);
            proof {
                lemma_word_end(cs@, start as int);
                assert(prepend(tv, cons(t@, lex(cs@, j as int))) == prepend(tv.push(t@), lex(cs@, j as int))) by {
                    if let Ok(rest) = lex(cs@, j as int) {
                        assert(tv + (seq![t@] + rest) =~= tv.push(t@) + rest);
                    }
                }
            }
            let ghost old_tokens = tokens@;
            tokens.push(t);
            assert(tokens@.map_values(|t: Token| t@) =~= old_tokens.map_values(|t: Token| t@).push(t@));
            i = j;
        } else if c == ',' || c == '(' || c == ')' || c == '*' || c == ';' {
            let t = if c == ',' {
                Token::Comma
            } else if c == '(' {
                Token::LeftParen
            } else if c == ')' {
                Token::RightParen
            } else if c == '*' {
                Token::Asterisk
            } else {
                Token::Semicolon
            };
            proof {
                assert(prepend(tv, cons(t@, lex(cs@, i + 1))) == prepend(tv.push(t@), lex(cs@, i + 1))) by {
                    if let Ok(rest) = lex(cs@, i + 1) {
                        assert(tv + (seq![t@] + rest) =~= tv.push(t@) + rest);
                    }
                }
            }
            let ghost old_tokens = tokens@;
            tokens.push(t);
            assert(tokens@.map_values(|t: Token| t@) =~= old_tokens.map_values(|t: Token| t@).push(t@));
            i = i + 1;
        } else if c >= '0' && c <= '9' {
            let start = i;
            let mut j = i;
            let mut v: u64 = 0;
            let mut over = false;
            assert(cs@.subrange(start as int, start as int) =~= Seq::<char>::empty());
            while j < n && cs[j] >= '0' && cs[j] <= '9'
                invariant
                    n == cs@.len(),
                    start <= j <= n,
                    digits_end(cs@, start as int) == digits_end(cs@, j as int),
                    forall|k: int| start <= k < j ==> is_digit(#[trigger] cs@[k]),
                    !over ==> v == digits_value(cs@.subrange(start as int, j as int)) && v <= i32::MAX,
                    over ==> digits_value(cs@.subrange(start as int, j as int)) > i32::MAX,
                decreases n - j,
            {
                let d = (cs[j] as u32 - '0' as u32) as u64;
                let ghost prev = cs@.subrange(start as int, j as int);
                assert(cs@.subrange(start as int, j + 1).drop_last() =~= prev);
                proof {
                    lemma_digits_value_nonneg(prev);
                }
                if !over {
                    let w = v * 10 + d;
                    if w > 0x7fff_ffffu64 {
                        over = true;
                    } else {
                        v = w;
                    }
                }
                j = j + 1;
            }
            proof {
                lemma_digits_end(cs@, start as int);
            }
            if over {
                return Err(ParseError::InvalidNumber);
            }
            let t = Token::Lit(Value::Int(v as i32));
            proof {
                assert(prepend(tv, cons(t@, lex(cs@, j as int))) == prepend(tv.push(t@), lex(cs@, j as int))) by {
                    if let Ok(rest) = lex(cs@, j as int) {
                        assert(tv + (seq![t@] + rest) =~= tv.push(t@) + rest);
                    }
                }
            }
            let ghost old_tokens = tokens@;
            tokens.push(t);
            assert(tokens@.map_values(|t: Token| t@) =~= old_tokens.map_values(|t: Token| t@).push(t@));
            i = j;
        } else if c == '\'' {
            let mut body: Vec<char> = Vec::new();
            let mut j = i + 1;
            assert(Seq::<char>::empty() + Seq::<char>::empty() =~= Seq::<char>::empty());
            loop
                invariant_except_break
                    i < j <= n,
                    string_body(cs@, i + 1) == prepend_body(body@, string_body(cs@, j as int)),
                invariant
                    n == cs@.len(),
                    cs@ == sql@,
                    i < n,
                    cs@[i as int] == '\'',
                    !white_space(cs@[i as int]),
                    !alphabetic(cs@[i as int]),
                    tv == tokens@.map_values(|t: Token| t@),
                    lex(cs@, 0) == prepend(tv, lex(cs@, i as int)),
                ensures
                    i < j <= n,
                    string_body(cs@, i + 1) == Some((body@, j as int)),
                decreases n - j,
            {
                if j >= n {
                    return Err(ParseError::InvalidStringLiteral);
                }
                let d = cs[j];
                if d == '\'' {
                    assert(body@ + Seq::<char>::empty() =~= body@);
                    j = j + 1;
                    break;
                } else if d == '\\' {
                    if j + 1 < n && cs[j + 1] == '\'' {
                        let ghost b0 = body@;
                        body.push('\'');
                        proof {
                            if let Some((s2, k)) = string_body(cs@, j + 2) {
                                assert(b0 + (seq!['\''] + s2) =~= body@ + s2);
                            }
                        }
                        j = j + 2;
                    } else {
                        return Err(ParseError::InvalidStringLiteral);
                    }
                } else {
                    let ghost b0 = body@;
                    body.push(d);
                    proof {
                        if let Some((s2, k)) = string_body(cs@, j + 1) {
                            assert(b0 + (seq![d] + s2) =~= body@ + s2);
                        }
                    }
                    j = j + 1;
                }
            }
            let t = Token::Lit(Value::Varchar(string_of(body.as_slice())));
            proof {
                lemma_string_body_end(cs@, i + 1);
                assert(prepend(tv, cons(t@, lex(cs@, j as int))) == prepend(tv.push(t@), lex(cs@, j as int))) by {
                    if let Ok(rest) = lex(cs@, j as int) {
                        assert(tv + (seq![t@] + rest) =~= tv.push(t@) + rest);
                    }
                }
            }
            let ghost old_tokens = tokens@;
            tokens.push(t);
            assert(tokens@.map_values(|t: Token| t@) =~= old_tokens.map_values(|t: Token| t@).push(t@));
            i = j;
        } else {
            return Err(ParseError::InvalidToken);
        }
    }
    let ghost old_tokens = tokens@;
    tokens.push(Token::EOF);
    assert(tokens@.map_values(|t: Token| t@) =~= old_tokens.map_values(|t: Token| t@) + seq![TokenView::EOF]);
    Ok(tokens)
}

} // verus!
