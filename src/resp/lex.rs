//! The lexical layer of the protocol: type sigils, integers and words.

use super::parser::{
    digits_value, is_digit, number_end, scan_number, signed_value, skip_crlf, skip_line_breaks,
};
use super::RespError;
use super::value::int_text;
use crate::text::{decimal_string, lemma_ascii_bytes_text, utf8_string};
use vstd::prelude::*;

verus! {

/// A token of the protocol. Runs of CR and LF between tokens are skipped.
#[derive(Debug, Clone, PartialEq, Eq)]
pub enum Token {
    /// `*`, which opens an array.
    Star,
    /// `$`, which opens a bulk string.
    Dollar,
    /// `+`, which opens a simple string.
    Plus,
    /// `-?(0|[1-9][0-9]*)`.
    Int(i64),
    /// A run of ASCII letters.
    Str(String),
}

pub enum TokenModel {
    Star,
    Dollar,
    Plus,
    Int(int),
    Str(Seq<char>),
}

impl View for Token {
    type V = TokenModel;

    open spec fn view(&self) -> TokenModel {
        match self {
            Token::Star => TokenModel::Star,
            Token::Dollar => TokenModel::Dollar,
            Token::Plus => TokenModel::Plus,
            Token::Int(n) => TokenModel::Int(*n as int),
            Token::Str(s) => TokenModel::Str(s@),
        }
    }
}

pub open spec fn is_alpha(b: u8) -> bool {
    (65 <= b <= 90) || (97 <= b <= 122)
}

/// The end of the run of ASCII letters that starts at `i`.
pub open spec fn alpha_run_end(s: Seq<u8>, i: int) -> int
    decreases s.len() - i,
{
    if 0 <= i < s.len() && is_alpha(s[i]) {
        alpha_run_end(s, i + 1)
    } else {
        i
    }
}

/// Outcome of reading one token.
pub enum Lexed {
    /// Only line breaks, or nothing, remain.
    End,
    /// A token, and the position after it.
    Tok(TokenModel, int),
    /// A byte that starts no token.
    Fail,
}

/// The token at `i`, after any run of CR and LF bytes.
pub open spec fn lex_token(s: Seq<u8>, i: int) -> Lexed {
    let p = skip_crlf(s, i);
    if p < 0 || p >= s.len() {
        Lexed::End
    } else if s[p] == 42 {
        Lexed::Tok(TokenModel::Star, p + 1)
    } else if s[p] == 36 {
        Lexed::Tok(TokenModel::Dollar, p + 1)
    } else if s[p] == 43 {
        Lexed::Tok(TokenModel::Plus, p + 1)
    } else if is_alpha(s[p]) {
        let e = alpha_run_end(s, p);
        Lexed::Tok(TokenModel::Str(s.subrange(p, e).map_values(|b: u8| b as char)), e)
    } else {
        let neg = s[p] == 45;
        let d = if neg { p + 1 } else { p };
        if d >= s.len() || !is_digit(s[d]) {
            Lexed::Fail
        } else {
            let e = number_end(s, d);
            let m = digits_value(s.subrange(d, e));
            let n = if neg { -m } else { m as int };
            if i64::MIN <= n <= i64::MAX {
                Lexed::Tok(TokenModel::Int(n), e)
            } else {
                Lexed::Fail
            }
        }
    }
}

/// All the tokens from `i` on, or `None` when a byte starts no token.
pub open spec fn lex_all(s: Seq<u8>, i: int) -> Option<Seq<TokenModel>>
    decreases s.len() - i,
{
    match lex_token(s, i) {
        Lexed::End => Some(seq![]),
        Lexed::Fail => None,
        Lexed::Tok(t, j) => if i < j <= s.len() {
            match lex_all(s, j) {
                Some(ts) => Some(seq![t] + ts),
                None => None,
            }
        } else {
            None
        },
    }
}

pub open spec fn token_models(v: Seq<Token>) -> Seq<TokenModel> {
    v.map_values(|t: Token| t@)
}

proof fn lemma_alpha_run_end(s: Seq<u8>, i: int)
    ensures
        alpha_run_end(s, i) >= i,
        0 <= i <= s.len() ==> alpha_run_end(s, i) <= s.len(),
        forall|k: int| i <= k < alpha_run_end(s, i) ==> is_alpha(#[trigger] s[k]),
    decreases s.len() - i,
{
    if 0 <= i < s.len() && is_alpha(s[i]) {
        lemma_alpha_run_end(s, i + 1);
    }
}

/// The text a token stands for: the decimal text of an integer, or a word.
pub open spec fn token_text(t: TokenModel) -> Option<Seq<char>> {
    match t {
        TokenModel::Int(n) => Some(int_text(n).map_values(|b: u8| b as char)),
        TokenModel::Str(s) => Some(s),
        _ => None,
    }
}

impl Token {
    /// The text of an integer or word token; sigils have none.
    pub fn into_text(self) -> (r: Result<String, RespError>)
        ensures
            match token_text(self@) {
                Some(t) => r matches Ok(x) && x@ == t,
                None => r == Err::<String, RespError>(RespError::InvalidToken),
            },
    {
        match self {
            Token::Int(n) => {
                if n < 0 {
                    let magnitude: u64 = ((-(n + 1)) as u64) + 1;
                    let mut text = "-".to_owned();
                    let digits = decimal_string(magnitude);
                    text.append(digits.as_str());
                    proof {
                        reveal_strlit("-");
                        assert(text@ =~= int_text(n as int).map_values(|b: u8| b as char));
                    }
                    Ok(text)
                } else {
                    let text = decimal_string(n as u64);
                    assert(text@ =~= int_text(n as int).map_values(|b: u8| b as char));
                    Ok(text)
                }
            },
            Token::Str(s) => Ok(s),
            _ => Err(RespError::InvalidToken),
        }
    }

    /// The integer of an `Int` token.
    pub fn as_int(&self) -> (r: Option<i64>)
        ensures
            match self {
                Token::Int(n) => r == Some(*n),
                _ => r is None,
            },
    {
        match self {
            Token::Int(n) => Some(*n),
            _ => None,
        }
    }

    /// Reads the token at `i`, after any run of CR and LF bytes: `Ok(None)`
    /// when none is left.
    pub fn next_token(s: &[u8], i: usize) -> (r: Result<Option<(Token, usize)>, RespError>)
        requires
            i <= s@.len(),
        ensures
            match lex_token(s@, i as int) {
                Lexed::End => r matches Ok(None),
                Lexed::Fail => r == Err::<Option<(Token, usize)>, RespError>(RespError::InvalidToken),
                Lexed::Tok(t, j) => r matches Ok(Some((x, k))) && x@ == t && k == j && i < j <= s@.len(),
            },
    {
        let p = skip_line_breaks(s, i);
        if p >= s.len() {
            return Ok(None);
        }
        let b = s[p];
        if b == 42 {
            return Ok(Some((Token::Star, p + 1)));
        }
        if b == 36 {
            return Ok(Some((Token::Dollar, p + 1)));
        }
        if b == 43 {
            return Ok(Some((Token::Plus, p + 1)));
        }
        if (65 <= b && b <= 90) || (97 <= b && b <= 122) {
            let mut e: usize = p;
            while e < s.len() && ((65 <= s[e] && s[e] <= 90) || (97 <= s[e] && s[e] <= 122))
                invariant
                    p <= e <= s@.len(),
                    alpha_run_end(s@, p as int) == alpha_run_end(s@, e as int),
                decreases s@.len() - e,
            {
                e = e + 1;
            }
            let word = &s[p..e];
            proof {
                lemma_alpha_run_end(s@, p as int);
                assert forall|k: int| 0 <= k < word@.len() implies #[trigger] word@[k] < 128 by {
                    assert(is_alpha(s@[p + k]));
                }
                lemma_ascii_bytes_text(word@);
            }
            return match utf8_string(word) {
                Some(t) => Ok(Some((Token::Str(t), e))),
                None => Err(RespError::InvalidToken),
            };
        }
        let neg = b == 45;
        let d: usize = if neg { p + 1 } else { p };
        if d >= s.len() || !(48 <= s[d] && s[d] <= 57) {
            return Err(RespError::InvalidToken);
        }
        let (e, magnitude) = scan_number(s, d);
        match magnitude {
            None => Err(RespError::InvalidToken),
            Some(m) => match signed_value(neg, m) {
                None => Err(RespError::InvalidToken),
                Some(n) => Ok(Some((Token::Int(n), e))),
            },
        }
    }

    /// Splits `input` into tokens, skipping the runs of CR and LF between
    /// them.
    pub fn lex(input: &[u8]) -> (r: Result<Vec<Token>, RespError>)
        ensures
            match lex_all(input@, 0) {
                Some(ts) => r matches Ok(v) && token_models(v@) == ts,
                None => r == Err::<Vec<Token>, RespError>(RespError::InvalidToken),
            },
    {
        let mut out: Vec<Token> = Vec::new();
        let mut pos: usize = 0;
        assert(token_models(out@) =~= Seq::<TokenModel>::empty());
        loop
            invariant
                pos <= input@.len(),
                lex_all(input@, 0) == match lex_all(input@, pos as int) {
                    Some(ts) => Some(token_models(out@) + ts),
                    None => None::<Seq<TokenModel>>,
                },
            decreases input@.len() - pos,
        {
            match Token::next_token(input, pos) {
                Err(e) => return Err(e),
                Ok(None) => {
                    assert(token_models(out@) + Seq::<TokenModel>::empty() =~= token_models(out@));
                    return Ok(out);
                },
                Ok(Some((t, next))) => {
                    proof {
                        match lex_all(input@, next as int) {
                            Some(ts) => {
                                assert(token_models(out@.push(t)) =~= token_models(out@).push(t@));
                                assert(token_models(out@) + (seq![t@] + ts) =~= token_models(out@.push(t)) + ts);
                            },
                            None => {},
                        }
                    }
                    out.push(t);
                    pos = next;
                },
            }
        }
    }
}

} // verus!
