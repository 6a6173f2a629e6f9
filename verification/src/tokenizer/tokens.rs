//! The lexer: turns route-description source text into a sequence of
//! [`Token`]s in a single left-to-right pass.
//!
//! Source text is made of
//! - runs of "string characters" (ASCII letters, digits, `/`, `:`), lexed as
//!   one [`Token::Identifier`] — except a run that is exactly the single
//!   character `:`, which is the key/value separator [`Token::Colon`];
//! - the structural characters `=`, `{`, `}`, `,`, lexed one character each;
//! - `"`, which opens a quoted span: the text up to the next `"` is captured
//!   verbatim as an identifier between two [`Token::Quote`] markers;
//! - whitespace (space, tab, newline), which separates tokens and is never
//!   emitted.
//!
//! Any other character stops the lexer with [`LexError::InvalidCharacter`].
//!
//! The function [`lex`] is the mathematical description of this grammar;
//! [`parse`] is the executable lexer, proved to return exactly what [`lex`]
//! says.

use vstd::prelude::*;

verus! {

/// The smallest lexical unit of the route-description language.
#[derive(Debug, Clone, PartialEq, Eq)]
pub enum Token {
    /// A run of string characters, or the text captured between two quotes.
    Identifier(String),
    /// `=`
    Equal,
    /// `{`
    LeftBrace,
    /// `}`
    RightBrace,
    /// `"`
    Quote,
    /// A lone `:` (a `:` inside a longer run stays part of the identifier).
    Colon,
    /// `,`
    Comma,
}

/// The mathematical model of a [`Token`]: identifier text as a sequence of
/// characters.
pub enum TokenModel {
    Identifier(Seq<char>),
    Equal,
    LeftBrace,
    RightBrace,
    Quote,
    Colon,
    Comma,
}

impl View for Token {
    type V = TokenModel;

    open spec fn view(&self) -> TokenModel {
        match self {
            Token::Identifier(text) => TokenModel::Identifier(text@),
            Token::Equal => TokenModel::Equal,
            Token::LeftBrace => TokenModel::LeftBrace,
            Token::RightBrace => TokenModel::RightBrace,
            Token::Quote => TokenModel::Quote,
            Token::Colon => TokenModel::Colon,
            Token::Comma => TokenModel::Comma,
        }
    }
}

/// The display form of a token: identifier text as it stands, a structural
/// marker as its character.
pub open spec fn render_token(t: TokenModel) -> Seq<char> {
    match t {
        TokenModel::Identifier(text) => text,
        TokenModel::Equal => seq!['='],
        TokenModel::LeftBrace => seq!['{'],
        TokenModel::RightBrace => seq!['}'],
        TokenModel::Quote => seq!['"'],
        TokenModel::Colon => seq![':'],
        TokenModel::Comma => seq![','],
    }
}

impl Token {
    /// The display form of the token, used to reconstruct a route body's
    /// text from its tokens.
    ///
    /// Rendering loses token boundaries: the display forms of a `Colon` and
    /// a neighbouring identifier join into one string-character run, which
    /// lexes back as a single identifier. Re-lexing a rendered token
    /// sequence therefore need not reproduce the sequence.
    pub fn render(&self) -> (r: String)
        ensures
            r@ == render_token(self@),
    {
        proof {
            reveal_strlit("=");
            reveal_strlit("{");
            reveal_strlit("}");
            reveal_strlit("\"");
            reveal_strlit(":");
            reveal_strlit(",");
            assert("="@ =~= seq!['=']);
            assert("{"@ =~= seq!['{']);
            assert("}"@ =~= seq!['}']);
            assert("\""@ =~= seq!['"']);
            assert(":"@ =~= seq![':']);
            assert(","@ =~= seq![',']);
        }
        match self {
            Token::Identifier(text) => text.clone(),
            Token::Equal => String::from_str("="),
            Token::LeftBrace => String::from_str("{"),
            Token::RightBrace => String::from_str("}"),
            Token::Quote => String::from_str("\""),
            Token::Colon => String::from_str(":"),
            Token::Comma => String::from_str(","),
        }
    }
}

/// The models of a sequence of tokens, in order.
pub open spec fn token_views(tokens: Seq<Token>) -> Seq<TokenModel> {
    Seq::new(tokens.len(), |i: int| tokens[i]@)
}

/// The error of the lexer: the first character that belongs to no recognized
/// character class.
#[derive(Debug, Clone, PartialEq, Eq)]
pub enum LexError {
    InvalidCharacter(char),
}

/// A character that may appear in an unquoted identifier run: an ASCII
/// letter or digit, `/`, or `:`.
pub open spec fn is_string_char(c: char) -> bool {
    ('0' <= c && c <= '9') || ('a' <= c && c <= 'z') || ('A' <= c && c <= 'Z') || c == '/' || c
        == ':'
}

/// Whitespace separating tokens: space, tab, newline.
pub open spec fn is_space_char(c: char) -> bool {
    c == ' ' || c == '\t' || c == '\n'
}

/// Executable form of [`is_string_char`].
pub fn is_valid_string(c: char) -> (r: bool)
    ensures
        r == is_string_char(c),
{
    ('0' <= c && c <= '9') || ('a' <= c && c <= 'z') || ('A' <= c && c <= 'Z') || c == '/' || c
        == ':'
}

/// Length of the maximal prefix of `s` made of string characters.
pub open spec fn string_run_len(s: Seq<char>) -> int
    decreases s.len(),
{
    if s.len() > 0 && is_string_char(s[0]) {
        1 + string_run_len(s.skip(1))
    } else {
        0
    }
}

pub proof fn lemma_string_run_len(s: Seq<char>)
    ensures
        0 <= string_run_len(s) <= s.len(),
        forall|i: int| 0 <= i < string_run_len(s) ==> is_string_char(s[i]),
        string_run_len(s) < s.len() ==> !is_string_char(s[string_run_len(s)]),
        s.len() > 0 && is_string_char(s[0]) ==> string_run_len(s) >= 1,
    decreases s.len(),
{
    if s.len() > 0 && is_string_char(s[0]) {
        lemma_string_run_len(s.skip(1));
        assert forall|i: int| 0 <= i < string_run_len(s) implies is_string_char(s[i]) by {
            if i >= 1 {
                assert(s[i] == s.skip(1)[i - 1]);
            }
        }
        if string_run_len(s) < s.len() {
            assert(s[string_run_len(s)] == s.skip(1)[string_run_len(s) - 1]);
        }
    }
}

/// A run is determined by its extent: if the first `n` characters of `s` are
/// string characters and the run stops there, the run length is `n`.
pub proof fn lemma_string_run_len_exact(s: Seq<char>, n: int)
    requires
        0 <= n <= s.len(),
        forall|i: int| 0 <= i < n ==> is_string_char(s[i]),
        n < s.len() ==> !is_string_char(s[n]),
    ensures
        string_run_len(s) == n,
    decreases s.len(),
{
    if s.len() > 0 && is_string_char(s[0]) {
        assert(forall|i: int| 0 <= i < n - 1 ==> is_string_char(s.skip(1)[i]));
        lemma_string_run_len_exact(s.skip(1), n - 1);
    }
}

/// Length of the prefix of `s` before the first `"` (all of `s` when it holds
/// no quote character).
pub open spec fn quoted_run_len(s: Seq<char>) -> int
    decreases s.len(),
{
    if s.len() > 0 && s[0] != '"' {
        1 + quoted_run_len(s.skip(1))
    } else {
        0
    }
}

pub proof fn lemma_quoted_run_len(s: Seq<char>)
    ensures
        0 <= quoted_run_len(s) <= s.len(),
        forall|i: int| 0 <= i < quoted_run_len(s) ==> s[i] != '"',
        quoted_run_len(s) < s.len() ==> s[quoted_run_len(s)] == '"',
    decreases s.len(),
{
    if s.len() > 0 && s[0] != '"' {
        lemma_quoted_run_len(s.skip(1));
        assert forall|i: int| 0 <= i < quoted_run_len(s) implies s[i] != '"' by {
            if i >= 1 {
                assert(s[i] == s.skip(1)[i - 1]);
            }
        }
        if quoted_run_len(s) < s.len() {
            assert(s[quoted_run_len(s)] == s.skip(1)[quoted_run_len(s) - 1]);
        }
    }
}

pub proof fn lemma_quoted_run_len_exact(s: Seq<char>, n: int)
    requires
        0 <= n <= s.len(),
        forall|i: int| 0 <= i < n ==> s[i] != '"',
        n < s.len() ==> s[n] == '"',
    ensures
        quoted_run_len(s) == n,
    decreases s.len(),
{
    if s.len() > 0 && s[0] != '"' {
        assert(forall|i: int| 0 <= i < n - 1 ==> s.skip(1)[i] != '"');
        lemma_quoted_run_len_exact(s.skip(1), n - 1);
    }
}

/// The lexing of `s`: the token sequence it denotes, or the first character
/// that belongs to no recognized class.
pub open spec fn lex(s: Seq<char>) -> Result<Seq<TokenModel>, char>
    decreases s.len(),
{
    if s.len() == 0 {
        Ok(Seq::empty())
    } else {
        let c = s[0];
        if is_string_char(c) {
            let n = string_run_len(s);
            let tok = if n == 1 && c == ':' {
                TokenModel::Colon
            } else {
                TokenModel::Identifier(s.take(n))
            };
            proof {
                lemma_string_run_len(s);
            }
            match lex(s.skip(n)) {
                Ok(rest) => Ok(seq![tok] + rest),
                Err(e) => Err(e),
            }
        } else if is_space_char(c) {
            match lex(s.skip(1)) {
                Ok(rest) => Ok(rest),
                Err(e) => Err(e),
            }
        } else if c == '=' {
            match lex(s.skip(1)) {
                Ok(rest) => Ok(seq![TokenModel::Equal] + rest),
                Err(e) => Err(e),
            }
        } else if c == '{' {
            match lex(s.skip(1)) {
                Ok(rest) => Ok(seq![TokenModel::LeftBrace] + rest),
                Err(e) => Err(e),
            }
        } else if c == '}' {
            match lex(s.skip(1)) {
                Ok(rest) => Ok(seq![TokenModel::RightBrace] + rest),
                Err(e) => Err(e),
            }
        } else if c == ',' {
            match lex(s.skip(1)) {
                Ok(rest) => Ok(seq![TokenModel::Comma] + rest),
                Err(e) => Err(e),
            }
        } else if c == '"' {
            let m = quoted_run_len(s.skip(1));
            let content = s.skip(1).take(m);
            let after = if 1 + m < s.len() {
                s.skip(2 + m)
            } else {
                s.skip(1 + m)
            };
            proof {
                lemma_quoted_run_len(s.skip(1));
            }
            match lex(after) {
                Ok(rest) => Ok(
                    seq![TokenModel::Quote, TokenModel::Identifier(content), TokenModel::Quote]
                        + rest,
                ),
                Err(e) => Err(e),
            }
        } else {
            Err(c)
        }
    }
}

/// The lexing of a suffix, prefixed with the tokens already produced.
pub open spec fn prepend_tokens(pre: Seq<TokenModel>, r: Result<Seq<TokenModel>, char>) -> Result<
    Seq<TokenModel>,
    char,
> {
    match r {
        Ok(rest) => Ok(pre + rest),
        Err(e) => Err(e),
    }
}

proof fn lemma_prepend_tokens_empty(r: Result<Seq<TokenModel>, char>)
    ensures
        prepend_tokens(Seq::empty(), r) == r,
{
    match r {
        Ok(rest) => {
            assert(Seq::empty() + rest =~= rest);
        },
        Err(_) => {
        },
    }
}

proof fn lemma_prepend_tokens_assoc(
    a: Seq<TokenModel>,
    b: Seq<TokenModel>,
    r: Result<Seq<TokenModel>, char>,
)
    ensures
        prepend_tokens(a + b, r) == prepend_tokens(a, prepend_tokens(b, r)),
{
    match r {
        Ok(rest) => {
            assert((a + b) + rest =~= a + (b + rest));
        },
        Err(_) => {
        },
    }
}

/// Reads the maximal run of string characters that starts at `from`,
/// returning the run's text and the position right after it.
pub fn read_string(s: &str, from: usize) -> (r: (String, usize))
    requires
        from as int <= s@.len(),
    ensures
        from <= r.1 <= s@.len(),
        r.1 - from == string_run_len(s@.skip(from as int)),
        r.0@ == s@.subrange(from as int, r.1 as int),
        r.1 < s@.len() ==> !is_string_char(s@[r.1 as int]),
{
    let n = s.unicode_len();
    let mut j = from;
    while j < n && is_valid_string(s.get_char(j))
        invariant
            n == s@.len(),
            from <= j <= n,
            forall|k: int| from <= k < j ==> is_string_char(s@[k]),
        decreases n - j,
    {
        j = j + 1;
    }
    proof {
        assert forall|k: int| 0 <= k < j - from implies is_string_char(
            s@.skip(from as int)[k],
        ) by {
            assert(s@.skip(from as int)[k] == s@[from + k]);
        }
        if j < n {
            assert(s@.skip(from as int)[j - from] == s@[j as int]);
        }
        lemma_string_run_len_exact(s@.skip(from as int), j - from);
    }
    let text = String::from_str(s.substring_char(from, j));
    (text, j)
}

/// Reads the span of characters from `from` up to (not including) the next
/// `"`, or to the end of the text when no quote follows, returning the span
/// and the position right after it.
pub fn read_quoted_string(s: &str, from: usize) -> (r: (String, usize))
    requires
        from as int <= s@.len(),
    ensures
        from <= r.1 <= s@.len(),
        r.1 - from == quoted_run_len(s@.skip(from as int)),
        r.0@ == s@.subrange(from as int, r.1 as int),
        r.1 < s@.len() ==> s@[r.1 as int] == '"',
{
    let n = s.unicode_len();
    let mut j = from;
    while j < n && s.get_char(j) != '"'
        invariant
            n == s@.len(),
            from <= j <= n,
            forall|k: int| from <= k < j ==> s@[k] != '"',
        decreases n - j,
    {
        j = j + 1;
    }
    proof {
        assert forall|k: int| 0 <= k < j - from implies s@.skip(from as int)[k] != '"' by {
            assert(s@.skip(from as int)[k] == s@[from + k]);
        }
        if j < n {
            assert(s@.skip(from as int)[j - from] == s@[j as int]);
        }
        lemma_quoted_run_len_exact(s@.skip(from as int), j - from);
    }
    let text = String::from_str(s.substring_char(from, j));
    (text, j)
}

/// The lexer: turns `text` into its token sequence, or reports the first
/// character that belongs to no recognized class. Returns exactly what
/// [`lex`] describes.
pub fn parse(text: String) -> (res: Result<Vec<Token>, LexError>)
    ensures
        match res {
            Ok(tokens) => lex(text@) == Ok::<Seq<TokenModel>, char>(token_views(tokens@)),
            Err(LexError::InvalidCharacter(c)) => lex(text@) == Err::<Seq<TokenModel>, char>(c),
        },
{
    let s = text.as_str();
    let n = s.unicode_len();
    let mut tokens: Vec<Token> = Vec::new();
    let mut i: usize = 0;
    proof {
        assert(text@.skip(0) =~= text@);
        assert(token_views(tokens@) =~= Seq::<TokenModel>::empty());
        lemma_prepend_tokens_empty(lex(text@));
    }
    while i < n
        invariant
            s@ == text@,
            n == text@.len(),
            0 <= i <= n,
            lex(text@) == prepend_tokens(token_views(tokens@), lex(text@.skip(i as int))),
        decreases n - i,
    {
        let ghost pre = token_views(tokens@);
        let ghost suffix = text@.skip(i as int);
        let c = s.get_char(i);
        assert(suffix[0] == c);
        if is_valid_string(c) {
            let (ident, j) = read_string(s, i);
            proof {
                assert(text@.skip(i as int).skip(1) =~= text@.skip(i as int + 1));
            }
            let ghost run = j - i;
            assert(string_run_len(suffix) == run);
            let tok = if j == i + 1 && c == ':' {
                Token::Colon
            } else {
                Token::Identifier(ident)
            };
            proof {
                assert(suffix.take(run as int) =~= text@.subrange(i as int, j as int));
                assert(suffix.skip(run as int) =~= text@.skip(j as int));
                assert(lex(suffix) == prepend_tokens(seq![tok@], lex(text@.skip(j as int))));
            }
            tokens.push(tok);
            proof {
                assert(token_views(tokens@) =~= pre + seq![tok@]);
                lemma_prepend_tokens_assoc(pre, seq![tok@], lex(text@.skip(j as int)));
            }
            i = j;
        } else if c == ' ' || c == '\t' || c == '\n' {
            proof {
                assert(suffix.skip(1) =~= text@.skip(i as int + 1));
            }
            i = i + 1;
        } else if c == '=' || c == '{' || c == '}' || c == ',' {
            let tok = if c == '=' {
                Token::Equal
            } else if c == '{' {
                Token::LeftBrace
            } else if c == '}' {
                Token::RightBrace
            } else {
                Token::Comma
            };
            proof {
                assert(suffix.skip(1) =~= text@.skip(i as int + 1));
                assert(lex(suffix) == prepend_tokens(seq![tok@], lex(text@.skip(i as int + 1))));
            }
            tokens.push(tok);
            proof {
                assert(token_views(tokens@) =~= pre + seq![tok@]);
                lemma_prepend_tokens_assoc(pre, seq![tok@], lex(text@.skip(i as int + 1)));
            }
            i = i + 1;
        } else if c == '"' {
            let (content, j) = read_quoted_string(s, i + 1);
            let ghost m = j - (i + 1);
            proof {
                assert(suffix.skip(1) =~= text@.skip(i as int + 1));
                assert(quoted_run_len(suffix.skip(1)) == m);
                assert(suffix.skip(1).take(m as int) =~= text@.subrange(i as int + 1, j as int));
            }
            let ghost toks = seq![
                TokenModel::Quote,
                TokenModel::Identifier(content@),
                TokenModel::Quote,
            ];
            let next = if j < n {
                j + 1
            } else {
                j
            };
            proof {
                if j < n {
                    assert(1 + m < suffix.len());
                    assert(suffix.skip(2 + m) =~= text@.skip(next as int));
                } else {
                    assert(1 + m == suffix.len());
                    assert(suffix.skip(1 + m) =~= text@.skip(next as int));
                }
                assert(lex(suffix) == prepend_tokens(toks, lex(text@.skip(next as int))));
            }
            tokens.push(Token::Quote);
            tokens.push(Token::Identifier(content));
            tokens.push(Token::Quote);
            proof {
                assert(token_views(tokens@) =~= pre + toks);
                lemma_prepend_tokens_assoc(pre, toks, lex(text@.skip(next as int)));
            }
            i = next;
        } else {
            assert(lex(suffix) == Err::<Seq<TokenModel>, char>(c));
            return Err(LexError::InvalidCharacter(c));
        }
    }
    proof {
        assert(text@.skip(n as int).len() == 0);
        assert(lex(text@.skip(n as int)) == Ok::<Seq<TokenModel>, char>(Seq::empty()));
        assert(token_views(tokens@) + Seq::<TokenModel>::empty() =~= token_views(tokens@));
    }
    Ok(tokens)
}

/// Leading whitespace never changes what a text lexes to.
pub proof fn lemma_lex_whitespace_prefix(w: Seq<char>, rest: Seq<char>)
    requires
        forall|i: int| 0 <= i < w.len() ==> is_space_char(w[i]),
    ensures
        lex(w + rest) == lex(rest),
    decreases w.len(),
{
    if w.len() == 0 {
        assert(w + rest =~= rest);
    } else {
        let s = w + rest;
        assert(s[0] == w[0]);
        assert(!is_string_char(s[0]));
        assert(s.skip(1) =~= w.skip(1) + rest);
        lemma_lex_whitespace_prefix(w.skip(1), rest);
    }
}

/// A maximal run of string characters at the front of a text lexes to one
/// identifier token in front of the rest, provided the run is not the lone
/// key/value separator `:`.
pub proof fn lemma_lex_run_prefix(run: Seq<char>, rest: Seq<char>)
    requires
        run.len() > 0,
        forall|i: int| 0 <= i < run.len() ==> is_string_char(run[i]),
        !(run.len() == 1 && run[0] == ':'),
        rest.len() > 0 ==> !is_string_char(rest[0]),
    ensures
        lex(run + rest) == prepend_tokens(seq![TokenModel::Identifier(run)], lex(rest)),
{
    let s = run + rest;
    assert forall|i: int| 0 <= i < run.len() implies is_string_char(s[i]) by {
        assert(s[i] == run[i]);
    }
    if run.len() < s.len() {
        assert(s[run.len() as int] == rest[0]);
    }
    lemma_string_run_len_exact(s, run.len() as int);
    assert(s.take(run.len() as int) =~= run);
    assert(s.skip(run.len() as int) =~= rest);
    assert(is_string_char(s[0]));
}

/// Character-by-character string equality, stated over the views.
pub fn str_eq(a: &str, b: &str) -> (r: bool)
    ensures
        r == (a@ == b@),
{
    let n = a.unicode_len();
    if n != b.unicode_len() {
        return false;
    }
    let mut i: usize = 0;
    while i < n
        invariant
            n == a@.len(),
            n == b@.len(),
            0 <= i <= n,
            forall|k: int| 0 <= k < i ==> a@[k] == b@[k],
        decreases n - i,
    {
        if a.get_char(i) != b.get_char(i) {
            return false;
        }
        i = i + 1;
    }
    proof {
        assert(a@ =~= b@);
    }
    true
}

} // verus!
