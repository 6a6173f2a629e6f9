//! The requirement parser: groups the lexer's token sequence into one
//! sub-sequence per route definition and decodes each group into an
//! [`ApplicationRequirements`] descriptor.
//!
//! Grouping takes tokens from the front up to and including the first
//! [`Token::RightBrace`], or to the end of the sequence when no brace
//! follows. A consequence, kept as the language behaves today: several
//! brace-less route definitions in one import cannot be told apart — the
//! first group swallows every remaining token.
//!
//! Each group is decoded in strict order: method, path, status, then a
//! left-to-right scan for an optional `Delay=n` marker and an optional
//! `{ ... }` body, whose tokens are rendered back into one flat piece of
//! text.

use vstd::prelude::*;

use crate::app_requirements::{ApplicationRequirements, HttpMethods, RequirementsModel,
    requirement_views};
use crate::tokenizer::tokens::{Token, TokenModel, token_views, str_eq, render_token,
    is_string_char, is_space_char, lex, lemma_lex_run_prefix,
    lemma_lex_whitespace_prefix};

verus! {

/// Why a route group could not be decoded. Every variant carries the
/// offending text where there is one.
#[derive(Debug, Clone, PartialEq, Eq)]
pub enum ParseError {
    MissingHttpMethod,
    InvalidHttpMethod(String),
    MissingPath,
    MissingStatusCode,
    InvalidStatusCode(String),
    InvalidDelay(String),
}

/// The mathematical model of a [`ParseError`].
pub enum ParseErrorModel {
    MissingHttpMethod,
    InvalidHttpMethod(Seq<char>),
    MissingPath,
    MissingStatusCode,
    InvalidStatusCode(Seq<char>),
    InvalidDelay(Seq<char>),
}

impl View for ParseError {
    type V = ParseErrorModel;

    open spec fn view(&self) -> ParseErrorModel {
        match self {
            ParseError::MissingHttpMethod => ParseErrorModel::MissingHttpMethod,
            ParseError::InvalidHttpMethod(text) => ParseErrorModel::InvalidHttpMethod(text@),
            ParseError::MissingPath => ParseErrorModel::MissingPath,
            ParseError::MissingStatusCode => ParseErrorModel::MissingStatusCode,
            ParseError::InvalidStatusCode(text) => ParseErrorModel::InvalidStatusCode(text@),
            ParseError::InvalidDelay(text) => ParseErrorModel::InvalidDelay(text@),
        }
    }
}

/// An ASCII decimal digit.
pub open spec fn is_digit_char(c: char) -> bool {
    '0' <= c && c <= '9'
}

/// The value of one digit.
pub open spec fn digit_val(c: char) -> int {
    c as int - '0' as int
}

/// Every character of `s` is a digit.
pub open spec fn all_digits(s: Seq<char>) -> bool {
    forall|i: int| 0 <= i < s.len() ==> is_digit_char(s[i])
}

/// The number a digit string denotes, most significant digit first.
pub open spec fn digits_val(s: Seq<char>) -> int
    decreases s.len(),
{
    if s.len() == 0 {
        0
    } else {
        digits_val(s.drop_last()) * 10 + digit_val(s.last())
    }
}

/// `s` denotes an unsigned 16-bit integer: a non-empty digit string whose
/// value fits.
pub open spec fn is_u16_numeral(s: Seq<char>) -> bool {
    s.len() > 0 && all_digits(s) && digits_val(s) <= u16::MAX
}

/// `s` denotes an unsigned machine-word integer: a non-empty digit string
/// whose value fits.
pub open spec fn is_usize_numeral(s: Seq<char>) -> bool {
    s.len() > 0 && all_digits(s) && digits_val(s) <= usize::MAX
}

pub proof fn lemma_digits_val_bounds(s: Seq<char>)
    requires
        all_digits(s),
    ensures
        0 <= digits_val(s),
    decreases s.len(),
{
    if s.len() > 0 {
        assert(all_digits(s.drop_last()));
        lemma_digits_val_bounds(s.drop_last());
        assert(0 <= digit_val(s.last()));
    }
}

/// A digit string is worth at least any of its prefixes.
pub proof fn lemma_digits_val_prefix(s: Seq<char>, n: int)
    requires
        all_digits(s),
        0 <= n <= s.len(),
    ensures
        digits_val(s.take(n)) <= digits_val(s),
    decreases s.len() - n,
{
    assert(all_digits(s.take(n)));
    lemma_digits_val_bounds(s.take(n));
    if n == s.len() {
        assert(s.take(n) =~= s);
    } else {
        assert(s.take(n + 1).drop_last() =~= s.take(n));
        assert(s.take(n + 1).last() == s[n]);
        assert(digits_val(s.take(n + 1)) == digits_val(s.take(n)) * 10 + digit_val(s[n]));
        assert(digits_val(s.take(n)) * 10 >= digits_val(s.take(n)));
        lemma_digits_val_prefix(s, n + 1);
    }
}

/// Number of tokens the first route group takes: everything up to and
/// including the first right brace, or every remaining token when no right
/// brace follows.
pub open spec fn group_len(ts: Seq<TokenModel>) -> int
    decreases ts.len(),
{
    if ts.len() == 0 {
        0
    } else if ts[0] is RightBrace {
        1
    } else {
        1 + group_len(ts.skip(1))
    }
}

pub proof fn lemma_group_len(ts: Seq<TokenModel>)
    ensures
        0 <= group_len(ts) <= ts.len(),
        ts.len() > 0 ==> 1 <= group_len(ts),
    decreases ts.len(),
{
    if ts.len() > 0 && !(ts[0] is RightBrace) {
        lemma_group_len(ts.skip(1));
    }
}

/// The first group is determined by its extent: it ends right after the
/// first right brace, or at the end of the sequence.
pub proof fn lemma_group_len_exact(ts: Seq<TokenModel>, n: int)
    requires
        0 < n <= ts.len(),
        forall|k: int| 0 <= k < n - 1 ==> !(ts[k] is RightBrace),
        n < ts.len() ==> ts[n - 1] is RightBrace,
    ensures
        group_len(ts) == n,
    decreases ts.len(),
{
    if ts[0] is RightBrace {
        if n > 1 {
            assert(!(ts[0] is RightBrace));
        }
    } else if n == 1 {
        assert(n == ts.len());
        assert(ts.skip(1).len() == 0);
        assert(group_len(ts.skip(1)) == 0);
    } else {
        assert(forall|k: int|
            0 <= k < n - 2 ==> ts.skip(1)[k] == ts[k + 1] && !(ts.skip(1)[k] is RightBrace));
        if n - 1 < ts.skip(1).len() {
            assert(ts.skip(1)[n - 2] == ts[n - 1]);
        }
        lemma_group_len_exact(ts.skip(1), n - 1);
    }
}

/// Number of body tokens before the closing right brace (all remaining
/// tokens when no right brace follows).
pub open spec fn body_len(ts: Seq<TokenModel>) -> int
    decreases ts.len(),
{
    if ts.len() == 0 {
        0
    } else if ts[0] is RightBrace {
        0
    } else {
        1 + body_len(ts.skip(1))
    }
}

pub proof fn lemma_body_len(ts: Seq<TokenModel>)
    ensures
        0 <= body_len(ts) <= ts.len(),
    decreases ts.len(),
{
    if ts.len() > 0 && !(ts[0] is RightBrace) {
        lemma_body_len(ts.skip(1));
    }
}

pub proof fn lemma_body_len_exact(ts: Seq<TokenModel>, n: int)
    requires
        0 <= n <= ts.len(),
        forall|k: int| 0 <= k < n ==> !(ts[k] is RightBrace),
        n < ts.len() ==> ts[n] is RightBrace,
    ensures
        body_len(ts) == n,
    decreases ts.len(),
{
    if ts.len() > 0 && !(ts[0] is RightBrace) {
        assert(forall|k: int| 0 <= k < n - 1 ==> !(ts.skip(1)[k] is RightBrace));
        if n - 1 < ts.skip(1).len() {
            assert(ts.skip(1)[n - 1] == ts[n]);
        }
        lemma_body_len_exact(ts.skip(1), n - 1);
    }
}

/// The concatenated display forms of a token sequence.
pub open spec fn render_tokens(ts: Seq<TokenModel>) -> Seq<char>
    decreases ts.len(),
{
    if ts.len() == 0 {
        Seq::empty()
    } else {
        crate::tokenizer::tokens::render_token(ts[0]) + render_tokens(ts.skip(1))
    }
}

/// One step of the option scan that follows the three required fields: the
/// text `Delay` followed by `=` and an integer sets the delay; a left brace
/// opens a body capture that renders every token up to the closing right
/// brace (included, as the character `}`) back into one flat text; every
/// other token is ignored. A `Delay` marker without its `=`/value pair
/// leaves the delay unset and swallows the tokens it inspected, as the
/// language behaves today.
pub open spec fn scan_options(
    ts: Seq<TokenModel>,
    delay: Option<usize>,
    body: Option<Seq<char>>,
) -> Result<(Option<usize>, Option<Seq<char>>), ParseErrorModel>
    decreases ts.len(),
{
    if ts.len() == 0 {
        Ok((delay, body))
    } else {
        match ts[0] {
            TokenModel::Identifier(name) => {
                if name == "Delay"@ {
                    if ts.len() >= 2 && ts[1] is Equal {
                        if ts.len() >= 3 {
                            match ts[2] {
                                TokenModel::Identifier(value) => {
                                    if is_usize_numeral(value) {
                                        scan_options(
                                            ts.skip(3),
                                            Some(digits_val(value) as usize),
                                            body,
                                        )
                                    } else {
                                        Err(ParseErrorModel::InvalidDelay(value))
                                    }
                                },
                                _ => scan_options(ts.skip(3), delay, body),
                            }
                        } else {
                            scan_options(ts.skip(2), delay, body)
                        }
                    } else if ts.len() >= 2 {
                        scan_options(ts.skip(2), delay, body)
                    } else {
                        scan_options(ts.skip(1), delay, body)
                    }
                } else {
                    scan_options(ts.skip(1), delay, body)
                }
            },
            TokenModel::LeftBrace => {
                let inner = ts.skip(1);
                let b = body_len(inner);
                proof {
                    lemma_body_len(inner);
                }
                let closed = b < inner.len();
                let text = if closed {
                    seq!['{'] + render_tokens(inner.take(b)) + seq!['}']
                } else {
                    seq!['{'] + render_tokens(inner.take(b))
                };
                let consumed = if closed {
                    2 + b
                } else {
                    1 + b
                };
                scan_options(ts.skip(consumed), delay, Some(text))
            },
            _ => scan_options(ts.skip(1), delay, body),
        }
    }
}

/// The decoding of one route group, in strict order: a supported method, a
/// path, a status that reads as a 16-bit integer, then the option scan.
pub open spec fn spec_parse_single(g: Seq<TokenModel>) -> Result<
    RequirementsModel,
    ParseErrorModel,
> {
    if g.len() == 0 {
        Err(ParseErrorModel::MissingHttpMethod)
    } else {
        match g[0] {
            TokenModel::Identifier(method_name) => {
                match HttpMethods::spec_from_name(method_name) {
                    None => Err(ParseErrorModel::InvalidHttpMethod(method_name)),
                    Some(method) => {
                        if g.len() < 2 {
                            Err(ParseErrorModel::MissingPath)
                        } else {
                            match g[1] {
                                TokenModel::Identifier(path) => {
                                    if g.len() < 3 {
                                        Err(ParseErrorModel::MissingStatusCode)
                                    } else {
                                        match g[2] {
                                            TokenModel::Identifier(status) => {
                                                if is_u16_numeral(status) {
                                                    match scan_options(g.skip(3), None, None) {
                                                        Ok(opts) => Ok(
                                                            RequirementsModel {
                                                                path: path,
                                                                http_method: method,
                                                                http_response_status: digits_val(
                                                                    status,
                                                                ) as u16,
                                                                http_response_body: opts.1,
                                                                http_response_path: None,
                                                                delay: opts.0,
                                                            },
                                                        ),
                                                        Err(e) => Err(e),
                                                    }
                                                } else {
                                                    Err(ParseErrorModel::InvalidStatusCode(status))
                                                }
                                            },
                                            _ => Err(ParseErrorModel::MissingStatusCode),
                                        }
                                    }
                                },
                                _ => Err(ParseErrorModel::MissingPath),
                            }
                        }
                    },
                }
            },
            _ => Err(ParseErrorModel::MissingHttpMethod),
        }
    }
}

/// The decoding of a whole token sequence: group after group, stopping at
/// the first group that fails.
pub open spec fn spec_parse_requirements(ts: Seq<TokenModel>) -> Result<
    Seq<RequirementsModel>,
    ParseErrorModel,
>
    decreases ts.len(),
{
    if ts.len() == 0 {
        Ok(Seq::empty())
    } else {
        let g = group_len(ts);
        proof {
            lemma_group_len(ts);
        }
        match spec_parse_single(ts.take(g)) {
            Ok(req) => match spec_parse_requirements(ts.skip(g)) {
                Ok(rest) => Ok(seq![req] + rest),
                Err(e) => Err(e),
            },
            Err(e) => Err(e),
        }
    }
}

/// Rendering distributes over extending a token sequence at its end.
pub proof fn lemma_render_tokens_push(ts: Seq<TokenModel>, t: TokenModel)
    ensures
        render_tokens(ts.push(t)) == render_tokens(ts) + render_token(t),
    decreases ts.len(),
{
    let p = ts.push(t);
    if ts.len() == 0 {
        assert(p[0] == t);
        assert(p.skip(1) =~= Seq::<TokenModel>::empty());
        assert(render_tokens(p.skip(1)) == Seq::<char>::empty());
        assert(render_tokens(p) == render_token(t) + Seq::<char>::empty());
        assert(render_tokens(ts) == Seq::<char>::empty());
        assert((render_token(t) + Seq::<char>::empty()) =~= (Seq::<char>::empty() + render_token(
            t,
        )));
    } else {
        assert(p[0] == ts[0]);
        assert(p.skip(1) =~= ts.skip(1).push(t));
        lemma_render_tokens_push(ts.skip(1), t);
        assert(render_tokens(p) == render_token(ts[0]) + (render_tokens(ts.skip(1))
            + render_token(t)));
        assert((render_token(ts[0]) + (render_tokens(ts.skip(1)) + render_token(t))) =~= ((
        render_token(ts[0]) + render_tokens(ts.skip(1))) + render_token(t)));
        assert(render_tokens(ts) == render_token(ts[0]) + render_tokens(ts.skip(1)));
    }
}

proof fn lemma_prepend_requirements_empty(r: Result<Seq<RequirementsModel>, ParseErrorModel>)
    ensures
        prepend_requirements(Seq::empty(), r) == r,
{
    match r {
        Ok(rest) => {
            assert(Seq::empty() + rest =~= rest);
        },
        Err(_) => {
        },
    }
}

proof fn lemma_prepend_requirements_assoc(
    a: Seq<RequirementsModel>,
    b: Seq<RequirementsModel>,
    r: Result<Seq<RequirementsModel>, ParseErrorModel>,
)
    ensures
        prepend_requirements(a + b, r) == prepend_requirements(a, prepend_requirements(b, r)),
{
    match r {
        Ok(rest) => {
            assert((a + b) + rest =~= a + (b + rest));
        },
        Err(_) => {
        },
    }
}

/// The decoding of a suffix, prefixed with the descriptors already produced.
pub open spec fn prepend_requirements(
    pre: Seq<RequirementsModel>,
    r: Result<Seq<RequirementsModel>, ParseErrorModel>,
) -> Result<Seq<RequirementsModel>, ParseErrorModel> {
    match r {
        Ok(rest) => Ok(pre + rest),
        Err(e) => Err(e),
    }
}

fn is_right_brace(t: &Token) -> (r: bool)
    ensures
        r == (t@ is RightBrace),
{
    match t {
        Token::RightBrace => true,
        _ => false,
    }
}

/// The view of an optional piece of body text.
pub open spec fn body_text_view(body: Option<String>) -> Option<Seq<char>> {
    match body {
        Some(text) => Some(text@),
        None => None,
    }
}

/// Decodes one route group — the tokens `start..end` of `tokens` — exactly
/// as [`spec_parse_single`] describes.
#[verifier::loop_isolation(false)]
pub fn parse_single_requirement(tokens: &[Token], start: usize, end: usize) -> (res: Result<
    ApplicationRequirements,
    ParseError,
>)
    requires
        start <= end <= tokens@.len(),
    ensures
        ({
            let g = token_views(tokens@).subrange(start as int, end as int);
            match res {
                Ok(req) => spec_parse_single(g) == Ok::<RequirementsModel, ParseErrorModel>(req@),
                Err(e) => spec_parse_single(g) == Err::<RequirementsModel, ParseErrorModel>(e@),
            }
        }),
{
    let ghost g = token_views(tokens@).subrange(start as int, end as int);
    if start >= end {
        return Err(ParseError::MissingHttpMethod);
    }
    assert(g[0] == tokens@[start as int]@);
    let method = match &tokens[start] {
        Token::Identifier(name) => match HttpMethods::from_name(name.as_str()) {
            Some(m) => m,
            None => {
                return Err(ParseError::InvalidHttpMethod(name.clone()));
            },
        },
        _ => {
            return Err(ParseError::MissingHttpMethod);
        },
    };
    if start + 1 >= end {
        return Err(ParseError::MissingPath);
    }
    assert(g[1] == tokens@[start as int + 1]@);
    let path = match &tokens[start + 1] {
        Token::Identifier(text) => text.clone(),
        _ => {
            return Err(ParseError::MissingPath);
        },
    };
    if start + 2 >= end {
        return Err(ParseError::MissingStatusCode);
    }
    assert(g[2] == tokens@[start as int + 2]@);
    let status = match &tokens[start + 2] {
        Token::Identifier(text) => match parse_u16(text.as_str()) {
            Some(v) => v,
            None => {
                return Err(ParseError::InvalidStatusCode(text.clone()));
            },
        },
        _ => {
            return Err(ParseError::MissingStatusCode);
        },
    };
    let mut delay: Option<usize> = None;
    let mut body: Option<String> = None;
    let mut k = start + 3;
    while k < end
        invariant
            start + 3 <= k <= end <= tokens@.len(),
            g == token_views(tokens@).subrange(start as int, end as int),
            scan_options(g.skip(3), None, None) == scan_options(
                g.skip(k - start),
                delay,
                body_text_view(body),
            ),
        decreases end - k,
    {
        let ghost ts = g.skip(k - start);
        let ghost old_delay = delay;
        assert(ts[0] == tokens@[k as int]@);
        match &tokens[k] {
            Token::Identifier(name) => {
                if str_eq(name.as_str(), "Delay") {
                    let has_eq = if k + 1 < end {
                        assert(ts[1] == tokens@[k as int + 1]@);
                        is_equal_token(&tokens[k + 1])
                    } else {
                        false
                    };
                    if has_eq {
                        if k + 2 < end {
                            assert(ts[2] == tokens@[k as int + 2]@);
                            match &tokens[k + 2] {
                                Token::Identifier(value) => {
                                    match parse_usize(value.as_str()) {
                                        Some(v) => {
                                            delay = Some(v);
                                        },
                                        None => {
                                            return Err(ParseError::InvalidDelay(value.clone()));
                                        },
                                    }
                                },
                                _ => {
                                },
                            }
                            proof {
                                assert(ts.skip(3) =~= g.skip(k - start + 3));
                            }
                            k = k + 3;
                        } else {
                            proof {
                                assert(ts.len() == 2);
                                assert(ts.skip(2) =~= g.skip(k - start + 2));
                            }
                            k = k + 2;
                        }
                    } else {
                        if k + 1 < end {
                            proof {
                                assert(ts.skip(2) =~= g.skip(k - start + 2));
                            }
                            k = k + 2;
                        } else {
                            proof {
                                assert(ts.len() == 1);
                                assert(ts.skip(1) =~= g.skip(k - start + 1));
                            }
                            k = k + 1;
                        }
                    }
                } else {
                    proof {
                        assert(ts.skip(1) =~= g.skip(k - start + 1));
                    }
                    k = k + 1;
                }
            },
            Token::LeftBrace => {
                let mut text = String::from_str("{");
                proof {
                    reveal_strlit("{");
                    assert("{"@ =~= seq!['{']);
                    assert(text@ =~= seq!['{'] + render_tokens(
                        token_views(tokens@).subrange(k as int + 1, k as int + 1),
                    ));
                }
                let mut j = k + 1;
                while j < end && !is_right_brace(&tokens[j])
                    invariant
                        k + 1 <= j <= end <= tokens@.len(),
                        forall|t: int| k + 1 <= t < j ==> !(tokens@[t]@ is RightBrace),
                        text@ == seq!['{'] + render_tokens(
                            token_views(tokens@).subrange(k as int + 1, j as int),
                        ),
                    decreases end - j,
                {
                    let piece = tokens[j].render();
                    text.append(piece.as_str());
                    proof {
                        let views = token_views(tokens@);
                        assert(views.subrange(k as int + 1, j as int + 1) =~= views.subrange(
                            k as int + 1,
                            j as int,
                        ).push(views[j as int]));
                        lemma_render_tokens_push(
                            views.subrange(k as int + 1, j as int),
                            views[j as int],
                        );
                        assert(seq!['{'] + (render_tokens(
                            views.subrange(k as int + 1, j as int),
                        ) + render_token(views[j as int])) =~= (seq!['{'] + render_tokens(
                            views.subrange(k as int + 1, j as int),
                        )) + render_token(views[j as int]));
                    }
                    j = j + 1;
                }
                let ghost inner = ts.skip(1);
                proof {
                    assert forall|t: int| 0 <= t < j - (k + 1) implies !(inner[t]
                        is RightBrace) by {
                        assert(inner[t] == tokens@[k + 1 + t]@);
                    }
                    if j < end {
                        assert(inner[j - (k + 1)] == tokens@[j as int]@);
                    }
                    lemma_body_len_exact(inner, j - (k + 1));
                    assert(inner.take(j - (k + 1)) =~= token_views(tokens@).subrange(
                        k as int + 1,
                        j as int,
                    ));
                }
                if j < end {
                    text.append("}");
                    proof {
                        reveal_strlit("}");
                        assert("}"@ =~= seq!['}']);
                        assert(ts.skip(2 + (j - (k + 1))) =~= g.skip(j + 1 - start));
                    }
                    body = Some(text);
                    k = j + 1;
                } else {
                    proof {
                        assert(ts.skip(1 + (j - (k + 1))) =~= g.skip(j - start));
                    }
                    body = Some(text);
                    k = j;
                }
            },
            _ => {
                proof {
                    assert(ts.skip(1) =~= g.skip(k - start + 1));
                }
                k = k + 1;
            },
        }
    }
    proof {
        assert(g.skip(end - start).len() == 0);
    }
    Ok(
        ApplicationRequirements {
            path,
            http_method: method,
            http_response_status: status,
            http_response_body: body,
            http_response_path: None,
            delay,
        },
    )
}

fn is_equal_token(t: &Token) -> (r: bool)
    ensures
        r == (t@ is Equal),
{
    match t {
        Token::Equal => true,
        _ => false,
    }
}

/// Decodes a whole token sequence into route descriptors, exactly as
/// [`spec_parse_requirements`] describes: one descriptor per group, stopping
/// at the first group that fails.
pub fn parse_requirements(tokens: &[Token]) -> (res: Result<
    Vec<ApplicationRequirements>,
    ParseError,
>)
    ensures
        match res {
            Ok(reqs) => spec_parse_requirements(token_views(tokens@)) == Ok::<
                Seq<RequirementsModel>,
                ParseErrorModel,
            >(requirement_views(reqs@)),
            Err(e) => spec_parse_requirements(token_views(tokens@)) == Err::<
                Seq<RequirementsModel>,
                ParseErrorModel,
            >(e@),
        },
{
    let ghost full = token_views(tokens@);
    let n = tokens.len();
    let mut requirements: Vec<ApplicationRequirements> = Vec::new();
    let mut i: usize = 0;
    proof {
        assert(full.skip(0) =~= full);
        assert(requirement_views(requirements@) =~= Seq::<RequirementsModel>::empty());
        lemma_prepend_requirements_empty(spec_parse_requirements(full));
    }
    while i < n
        invariant
            n == tokens@.len(),
            full == token_views(tokens@),
            0 <= i <= n,
            spec_parse_requirements(full) == prepend_requirements(
                requirement_views(requirements@),
                spec_parse_requirements(full.skip(i as int)),
            ),
        decreases n - i,
    {
        let ghost pre = requirement_views(requirements@);
        let mut j = i;
        while j < n && !is_right_brace(&tokens[j])
            invariant
                i <= j <= n == tokens@.len(),
                full == token_views(tokens@),
                forall|k: int| i <= k < j ==> !(full[k] is RightBrace),
            decreases n - j,
        {
            j = j + 1;
        }
        let end = if j < n {
            j + 1
        } else {
            j
        };
        proof {
            let suffix = full.skip(i as int);
            assert forall|k: int| 0 <= k < (end - i) - 1 implies !(suffix[k] is RightBrace) by {
                assert(suffix[k] == full[i + k]);
            }
            if end < n {
                assert(suffix[(end - i) - 1] == full[j as int]);
            }
            lemma_group_len_exact(suffix, end - i);
            assert(suffix.take(end - i) =~= full.subrange(i as int, end as int));
            assert(suffix.skip(end - i) =~= full.skip(end as int));
        }
        match parse_single_requirement(tokens, i, end) {
            Ok(req) => {
                requirements.push(req);
                proof {
                    assert(requirement_views(requirements@) =~= pre + seq![req@]);
                    lemma_prepend_requirements_assoc(
                        pre,
                        seq![req@],
                        spec_parse_requirements(full.skip(end as int)),
                    );
                }
                i = end;
            },
            Err(e) => {
                return Err(e);
            },
        }
    }
    proof {
        assert(full.skip(n as int).len() == 0);
        assert(requirement_views(requirements@) + Seq::<RequirementsModel>::empty()
            =~= requirement_views(requirements@));
    }
    Ok(requirements)
}

/// Reads a non-empty all-digit string as a `u16`; `None` on any other text
/// and on a value that does not fit.
pub fn parse_u16(s: &str) -> (r: Option<u16>)
    ensures
        is_u16_numeral(s@) ==> r == Some((digits_val(s@) as u16)),
        !is_u16_numeral(s@) ==> r is None,
{
    let n = s.unicode_len();
    if n == 0 {
        return None;
    }
    let mut acc: u16 = 0;
    let mut i: usize = 0;
    while i < n
        invariant
            n == s@.len(),
            0 <= i <= n,
            all_digits(s@.take(i as int)),
            acc == digits_val(s@.take(i as int)),
        decreases n - i,
    {
        let c = s.get_char(i);
        if !('0' <= c && c <= '9') {
            assert(!all_digits(s@));
            return None;
        }
        let d: u16 = (c as u32 as u16) - 48;
        proof {
            assert(s@.take(i + 1).drop_last() =~= s@.take(i as int));
            assert(s@.take(i + 1).last() == s@[i as int]);
            lemma_digits_val_bounds(s@.take(i + 1));
        }
        let shifted = match acc.checked_mul(10) {
            Some(v) => v,
            None => {
                proof {
                    if all_digits(s@) {
                        lemma_digits_val_prefix(s@, i + 1);
                    }
                }
                return None;
            },
        };
        let next = match shifted.checked_add(d) {
            Some(v) => v,
            None => {
                proof {
                    if all_digits(s@) {
                        lemma_digits_val_prefix(s@, i + 1);
                    }
                }
                return None;
            },
        };
        acc = next;
        i = i + 1;
    }
    proof {
        assert(s@.take(n as int) =~= s@);
    }
    Some(acc)
}

/// Reads a non-empty all-digit string as a `usize`; `None` on any other text
/// and on a value that does not fit.
pub fn parse_usize(s: &str) -> (r: Option<usize>)
    ensures
        is_usize_numeral(s@) ==> r == Some((digits_val(s@) as usize)),
        !is_usize_numeral(s@) ==> r is None,
{
    let n = s.unicode_len();
    if n == 0 {
        return None;
    }
    let mut acc: usize = 0;
    let mut i: usize = 0;
    while i < n
        invariant
            n == s@.len(),
            0 <= i <= n,
            all_digits(s@.take(i as int)),
            acc == digits_val(s@.take(i as int)),
        decreases n - i,
    {
        let c = s.get_char(i);
        if !('0' <= c && c <= '9') {
            assert(!all_digits(s@));
            return None;
        }
        let d: usize = (c as u32 as usize) - 48;
        proof {
            assert(s@.take(i + 1).drop_last() =~= s@.take(i as int));
            assert(s@.take(i + 1).last() == s@[i as int]);
            lemma_digits_val_bounds(s@.take(i + 1));
        }
        let shifted = match acc.checked_mul(10) {
            Some(v) => v,
            None => {
                proof {
                    if all_digits(s@) {
                        lemma_digits_val_prefix(s@, i + 1);
                    }
                }
                return None;
            },
        };
        let next = match shifted.checked_add(d) {
            Some(v) => v,
            None => {
                proof {
                    if all_digits(s@) {
                        lemma_digits_val_prefix(s@, i + 1);
                    }
                }
                return None;
            },
        };
        acc = next;
        i = i + 1;
    }
    proof {
        assert(s@.take(n as int) =~= s@);
    }
    Some(acc)
}


/// Every method name the parser accepts is a non-empty run of string
/// characters, longer than a lone `:`.
pub proof fn lemma_method_name_chars(name: Seq<char>)
    requires
        HttpMethods::spec_from_name(name) is Some,
    ensures
        3 <= name.len() <= 6,
        forall|i: int| 0 <= i < name.len() ==> is_string_char(name[i]),
{
    reveal_strlit("GET");
    reveal_strlit("POST");
    reveal_strlit("PUT");
    reveal_strlit("PATCH");
    reveal_strlit("DELETE");
    if name == "GET"@ {
        assert(name.len() == 3);
        assert(is_string_char(name[0]) && is_string_char(name[1]) && is_string_char(name[2]));
    } else if name == "POST"@ {
        assert(name.len() == 4);
        assert(is_string_char(name[0]) && is_string_char(name[1]) && is_string_char(name[2])
            && is_string_char(name[3]));
    } else if name == "PUT"@ {
        assert(name.len() == 3);
        assert(is_string_char(name[0]) && is_string_char(name[1]) && is_string_char(name[2]));
    } else if name == "PATCH"@ {
        assert(name.len() == 5);
        assert(is_string_char(name[0]) && is_string_char(name[1]) && is_string_char(name[2])
            && is_string_char(name[3]) && is_string_char(name[4]));
    } else {
        assert(name == "DELETE"@);
        assert(name.len() == 6);
        assert(is_string_char(name[0]) && is_string_char(name[1]) && is_string_char(name[2])
            && is_string_char(name[3]) && is_string_char(name[4]) && is_string_char(name[5]));
    }
}

/// The law of a bare header line: a text of the form `METHOD PATH STATUS` —
/// a supported method, a path run, a status that reads as a 16-bit integer,
/// separated by whitespace — lexes to exactly three identifier tokens, and
/// those parse to exactly one route descriptor carrying the three fields,
/// with no delay and no body.
pub proof fn lemma_header_line_route(
    method_name: Seq<char>,
    ws1: Seq<char>,
    path: Seq<char>,
    ws2: Seq<char>,
    status: Seq<char>,
    method: HttpMethods,
)
    requires
        HttpMethods::spec_from_name(method_name) == Some(method),
        ws1.len() > 0,
        forall|i: int| 0 <= i < ws1.len() ==> is_space_char(ws1[i]),
        path.len() > 0,
        forall|i: int| 0 <= i < path.len() ==> is_string_char(path[i]),
        !(path.len() == 1 && path[0] == ':'),
        ws2.len() > 0,
        forall|i: int| 0 <= i < ws2.len() ==> is_space_char(ws2[i]),
        is_u16_numeral(status),
    ensures
        ({
            let tokens = seq![
                TokenModel::Identifier(method_name),
                TokenModel::Identifier(path),
                TokenModel::Identifier(status),
            ];
            lex(method_name + ws1 + path + ws2 + status) == Ok::<Seq<TokenModel>, char>(tokens)
                && spec_parse_requirements(tokens) == Ok::<Seq<RequirementsModel>, ParseErrorModel>(
                seq![
                    RequirementsModel {
                        path: path,
                        http_method: method,
                        http_response_status: digits_val(status) as u16,
                        http_response_body: None,
                        http_response_path: None,
                        delay: None,
                    },
                ],
            )
        }),
{
    let text = method_name + ws1 + path + ws2 + status;
    let tokens = seq![
        TokenModel::Identifier(method_name),
        TokenModel::Identifier(path),
        TokenModel::Identifier(status),
    ];
    lemma_method_name_chars(method_name);
    assert forall|i: int| 0 <= i < status.len() implies is_string_char(status[i]) by {
        assert(is_digit_char(status[i]));
    }
    let tail2 = ws2 + status;
    let tail1 = path + tail2;
    let rest = ws1 + tail1;
    assert(text =~= method_name + rest);
    assert(rest[0] == ws1[0]);
    lemma_lex_run_prefix(method_name, rest);
    lemma_lex_whitespace_prefix(ws1, tail1);
    assert(tail1[0] == path[0]);
    assert(tail2[0] == ws2[0]);
    lemma_lex_run_prefix(path, tail2);
    lemma_lex_whitespace_prefix(ws2, status);
    lemma_lex_run_prefix(status, Seq::<char>::empty());
    assert(status + Seq::<char>::empty() =~= status);
    assert(Seq::<char>::empty().len() == 0);
    assert(lex(Seq::<char>::empty()) == Ok::<Seq<TokenModel>, char>(Seq::empty()));
    assert(seq![TokenModel::Identifier(status)] + Seq::<TokenModel>::empty() =~= seq![
        TokenModel::Identifier(status),
    ]);
    assert(seq![TokenModel::Identifier(path)] + seq![TokenModel::Identifier(status)] =~= seq![
        TokenModel::Identifier(path),
        TokenModel::Identifier(status),
    ]);
    assert(seq![TokenModel::Identifier(method_name)] + seq![
        TokenModel::Identifier(path),
        TokenModel::Identifier(status),
    ] =~= tokens);
    assert(lex(text) == Ok::<Seq<TokenModel>, char>(tokens));

    assert(!(tokens[0] is RightBrace) && !(tokens[1] is RightBrace));
    lemma_group_len_exact(tokens, 3);
    assert(tokens.take(3) =~= tokens);
    assert(tokens.skip(3).len() == 0);
    assert(scan_options(tokens.skip(3), None, None) == Ok::<
        (Option<usize>, Option<Seq<char>>),
        ParseErrorModel,
    >((None, None)));
    assert(spec_parse_requirements(tokens.skip(3)) == Ok::<
        Seq<RequirementsModel>,
        ParseErrorModel,
    >(Seq::empty()));
    let descriptor = RequirementsModel {
        path: path,
        http_method: method,
        http_response_status: digits_val(status) as u16,
        http_response_body: None,
        http_response_path: None,
        delay: None,
    };
    assert(spec_parse_single(tokens) == Ok::<RequirementsModel, ParseErrorModel>(descriptor));
    assert(seq![descriptor] + Seq::<RequirementsModel>::empty() =~= seq![descriptor]);
}

} // verus!
