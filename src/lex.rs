//! Tokens of the adroit language and the lexer that produces them.

use vstd::prelude::*;
use vstd::string::StringSliceAdditionalSpecFns;

verus! {

/// The kinds of token; `Eof` ends every token sequence.
#[derive(Clone, Copy, Debug, PartialEq, Eq, Structural, Hash)]
pub enum TokenKind {
    Eof,
    Comment,
    Ident,
    Int,
    Float,
    LParen,
    RParen,
    LBracket,
    RBracket,
    LBrace,
    RBrace,
    Comma,
    Dot,
    DotDot,
    Colon,
    Equals,
    Semicolon,
    Plus,
    Minus,
    Times,
    Divide,
    PlusEquals,
    MinusEquals,
    TimesEquals,
    DivideEquals,
    Import,
    Func,
    Let,
    Var,
    For,
    In,
}

impl TokenKind {
    /// Whether tokens of this kind carry no meaning for the parser.
    pub fn ignore(self) -> (r: bool)
        ensures
            r == (self == TokenKind::Comment),
    {
        matches!(self, TokenKind::Comment)
    }

    /// How the kind is named in diagnostics.
    pub fn description(self) -> (r: &'static str)
        ensures
            r@ == kind_description(self),
    {
        match self {
            TokenKind::Eof => "end of file",
            TokenKind::Comment => "comment",
            TokenKind::Ident => "identifier",
            TokenKind::Int => "integer",
            TokenKind::Float => "number",
            TokenKind::LParen => "`(`",
            TokenKind::RParen => "`)`",
            TokenKind::LBracket => "`[`",
            TokenKind::RBracket => "`]`",
            TokenKind::LBrace => "`{`",
            TokenKind::RBrace => "`}`",
            TokenKind::Comma => "`,`",
            TokenKind::Dot => "`.`",
            TokenKind::DotDot => "`..`",
            TokenKind::Colon => "`:`",
            TokenKind::Equals => "`=`",
            TokenKind::Semicolon => "`;`",
            TokenKind::Plus => "`+`",
            TokenKind::Minus => "`-`",
            TokenKind::Times => "`*`",
            TokenKind::Divide => "`/`",
            TokenKind::PlusEquals => "`+=`",
            TokenKind::MinusEquals => "`-=`",
            TokenKind::TimesEquals => "`*=`",
            TokenKind::DivideEquals => "`/=`",
            TokenKind::Import => "`import`",
            TokenKind::Func => "`func`",
            TokenKind::Let => "`let`",
            TokenKind::Var => "`var`",
            TokenKind::For => "`for`",
            TokenKind::In => "`in`",
        }
    }
}

/// The place of a kind in the declaration order of `TokenKind`.
pub open spec fn kind_index(kind: TokenKind) -> int {
    match kind {
        TokenKind::Eof => 0,
        TokenKind::Comment => 1,
        TokenKind::Ident => 2,
        TokenKind::Int => 3,
        TokenKind::Float => 4,
        TokenKind::LParen => 5,
        TokenKind::RParen => 6,
        TokenKind::LBracket => 7,
        TokenKind::RBracket => 8,
        TokenKind::LBrace => 9,
        TokenKind::RBrace => 10,
        TokenKind::Comma => 11,
        TokenKind::Dot => 12,
        TokenKind::DotDot => 13,
        TokenKind::Colon => 14,
        TokenKind::Equals => 15,
        TokenKind::Semicolon => 16,
        TokenKind::Plus => 17,
        TokenKind::Minus => 18,
        TokenKind::Times => 19,
        TokenKind::Divide => 20,
        TokenKind::PlusEquals => 21,
        TokenKind::MinusEquals => 22,
        TokenKind::TimesEquals => 23,
        TokenKind::DivideEquals => 24,
        TokenKind::Import => 25,
        TokenKind::Func => 26,
        TokenKind::Let => 27,
        TokenKind::Var => 28,
        TokenKind::For => 29,
        TokenKind::In => 30,
    }
}

/// Kinds listed once each, in declaration order.
pub open spec fn ascending(kinds: Seq<TokenKind>) -> bool {
    forall|i: int, j: int| 0 <= i < j < kinds.len() ==> kind_index(#[trigger] kinds[i]) < kind_index(
        #[trigger] kinds[j],
    )
}

/// The text by which a kind is named in diagnostics.
pub open spec fn kind_description(kind: TokenKind) -> Seq<char> {
    match kind {
        TokenKind::Eof => "end of file"@,
        TokenKind::Comment => "comment"@,
        TokenKind::Ident => "identifier"@,
        TokenKind::Int => "integer"@,
        TokenKind::Float => "number"@,
        TokenKind::LParen => "`(`"@,
        TokenKind::RParen => "`)`"@,
        TokenKind::LBracket => "`[`"@,
        TokenKind::RBracket => "`]`"@,
        TokenKind::LBrace => "`{`"@,
        TokenKind::RBrace => "`}`"@,
        TokenKind::Comma => "`,`"@,
        TokenKind::Dot => "`.`"@,
        TokenKind::DotDot => "`..`"@,
        TokenKind::Colon => "`:`"@,
        TokenKind::Equals => "`=`"@,
        TokenKind::Semicolon => "`;`"@,
        TokenKind::Plus => "`+`"@,
        TokenKind::Minus => "`-`"@,
        TokenKind::Times => "`*`"@,
        TokenKind::Divide => "`/`"@,
        TokenKind::PlusEquals => "`+=`"@,
        TokenKind::MinusEquals => "`-=`"@,
        TokenKind::TimesEquals => "`*=`"@,
        TokenKind::DivideEquals => "`/=`"@,
        TokenKind::Import => "`import`"@,
        TokenKind::Func => "`func`"@,
        TokenKind::Let => "`let`"@,
        TokenKind::Var => "`var`"@,
        TokenKind::For => "`for`"@,
        TokenKind::In => "`in`"@,
    }
}

/// A token: its kind and the bytes of the source it covers.
#[derive(Clone, Copy, Debug)]
pub struct Token {
    pub start: u32,
    pub len: u16,
    pub kind: TokenKind,
}

impl Token {
    /// The byte offsets the token covers.
    pub fn byte_range(&self) -> (r: std::ops::Range<usize>)
        requires
            self.start as int + self.len as int <= usize::MAX,
        ensures
            r.start == self.start as usize,
            r.end == self.start as usize + self.len as usize,
    {
        let start = self.start as usize;
        start..(start + self.len as usize)
    }
}

/// Why a source could not be tokenized.
#[derive(Clone, Copy, Debug)]
pub enum LexError {
    SourceTooLong,
    TokenTooLong { start: u32, end: u32 },
    InvalidToken { start: u32, len: u16 },
}

pub const SOURCE_LIMIT: u64 = 0xffff_ffff;

impl LexError {
    /// The byte offsets the error points at.
    pub fn byte_range(&self) -> (r: std::ops::Range<usize>)
        requires
            self matches LexError::InvalidToken { start, len } ==> start as int + len as int <= usize::MAX,
        ensures
            match *self {
                LexError::SourceTooLong => r.start == SOURCE_LIMIT && r.end == SOURCE_LIMIT,
                LexError::TokenTooLong { start, end } => r.start == start && r.end == end,
                LexError::InvalidToken { start, len } => r.start == start && r.end == start
                    + len,
            },
    {
        match *self {
            LexError::SourceTooLong => {
                let max = u32::MAX as usize;
                max..max
            },
            LexError::TokenTooLong { start, end } => (start as usize)..(end as usize),
            LexError::InvalidToken { start, len } => {
                let start = start as usize;
                start..(start + len as usize)
            },
        }
    }

    /// The text of the diagnostic.
    pub fn message(&self) -> (r: &'static str)
        ensures
            r@ == match *self {
                LexError::SourceTooLong => "file size exceeds 4 GiB limit"@,
                LexError::TokenTooLong { .. } => "token size exceeds 64 KiB limit"@,
                LexError::InvalidToken { .. } => "invalid token"@,
            },
    {
        match self {
            LexError::SourceTooLong => "file size exceeds 4 GiB limit",
            LexError::TokenTooLong { .. } => "token size exceeds 64 KiB limit",
            LexError::InvalidToken { .. } => "invalid token",
        }
    }
}

/// Bytes skipped between tokens.
pub open spec fn is_space(b: u8) -> bool {
    b == 32 || b == 9 || b == 10 || b == 11 || b == 12 || b == 13
}

pub open spec fn is_digit(b: u8) -> bool {
    48 <= b <= 57
}

pub open spec fn is_ident_start(b: u8) -> bool {
    (65 <= b <= 90) || (97 <= b <= 122) || b == 95
}

pub open spec fn is_word(b: u8) -> bool {
    is_ident_start(b) || is_digit(b)
}

pub open spec fn all_digits(s: Seq<u8>) -> bool {
    forall|i: int| 0 <= i < s.len() ==> is_digit(#[trigger] s[i])
}

/// The exact text of a punctuation or keyword token (empty for the other kinds).
pub open spec fn fixed_text(kind: TokenKind) -> Seq<u8> {
    match kind {
        TokenKind::LParen => seq![40u8],
        TokenKind::RParen => seq![41u8],
        TokenKind::LBracket => seq![91u8],
        TokenKind::RBracket => seq![93u8],
        TokenKind::LBrace => seq![123u8],
        TokenKind::RBrace => seq![125u8],
        TokenKind::Comma => seq![44u8],
        TokenKind::Dot => seq![46u8],
        TokenKind::DotDot => seq![46u8, 46u8],
        TokenKind::Colon => seq![58u8],
        TokenKind::Equals => seq![61u8],
        TokenKind::Semicolon => seq![59u8],
        TokenKind::Plus => seq![43u8],
        TokenKind::Minus => seq![45u8],
        TokenKind::Times => seq![42u8],
        TokenKind::Divide => seq![47u8],
        TokenKind::PlusEquals => seq![43u8, 61u8],
        TokenKind::MinusEquals => seq![45u8, 61u8],
        TokenKind::TimesEquals => seq![42u8, 61u8],
        TokenKind::DivideEquals => seq![47u8, 61u8],
        TokenKind::Import => seq![105u8, 109u8, 112u8, 111u8, 114u8, 116u8],
        TokenKind::Func => seq![102u8, 117u8, 110u8, 99u8],
        TokenKind::Let => seq![108u8, 101u8, 116u8],
        TokenKind::Var => seq![118u8, 97u8, 114u8],
        TokenKind::For => seq![102u8, 111u8, 114u8],
        TokenKind::In => seq![105u8, 110u8],
        _ => Seq::empty(),
    }
}

pub open spec fn is_keyword(s: Seq<u8>) -> bool {
    s == fixed_text(TokenKind::Import) || s == fixed_text(TokenKind::Func) || s == fixed_text(
        TokenKind::Let,
    ) || s == fixed_text(TokenKind::Var) || s == fixed_text(TokenKind::For) || s == fixed_text(
        TokenKind::In,
    )
}

pub open spec fn is_keyword_kind(k: TokenKind) -> bool {
    k == TokenKind::Import || k == TokenKind::Func || k == TokenKind::Let || k == TokenKind::Var
        || k == TokenKind::For || k == TokenKind::In
}

/// `s` is, as a whole, the text of one token of kind `kind`.
pub open spec fn is_lexeme(kind: TokenKind, s: Seq<u8>) -> bool {
    match kind {
        TokenKind::Eof => false,
        TokenKind::Comment => s.len() >= 1 && s[0] == 35 && forall|i: int|
            1 <= i < s.len() ==> #[trigger] s[i] != 10,
        TokenKind::Ident => s.len() >= 1 && is_ident_start(s[0]) && (forall|i: int|
            1 <= i < s.len() ==> is_word(#[trigger] s[i])) && !is_keyword(s),
        TokenKind::Int => s.len() >= 1 && all_digits(s),
        TokenKind::Float => exists|d: int|
            1 <= d && d + 2 <= s.len() && #[trigger] s[d] == 46 && all_digits(s.take(d))
                && all_digits(s.skip(d + 1)),
        _ => s == fixed_text(kind),
    }
}

/// Some token of any kind is exactly `s`.
pub open spec fn is_any_lexeme(s: Seq<u8>) -> bool {
    exists|k: TokenKind| is_lexeme(k, s)
}

/// The bytes `start..end` form the longest token that starts at `start`.
pub open spec fn longest_lexeme(bytes: Seq<u8>, start: int, end: int, kind: TokenKind) -> bool {
    &&& 0 <= start < end <= bytes.len()
    &&& is_lexeme(kind, bytes.subrange(start, end))
    &&& forall|e: int| end < e <= bytes.len() ==> !is_any_lexeme(#[trigger] bytes.subrange(start, e))
}

/// No token starts at `start`.
pub open spec fn no_lexeme_at(bytes: Seq<u8>, start: int) -> bool {
    forall|e: int| start < e <= bytes.len() ==> !is_any_lexeme(#[trigger] bytes.subrange(start, e))
}

pub open spec fn all_space(bytes: Seq<u8>, from: int, to: int) -> bool {
    forall|i: int| from <= i < to ==> is_space(#[trigger] bytes[i])
}

pub open spec fn token_end(t: Token) -> int {
    t.start + t.len
}

/// `toks` is the tokenization of `bytes[0..upto]`: each token is the longest
/// one at its place, and only whitespace stands before, between and after them.
pub open spec fn tokenizes(bytes: Seq<u8>, toks: Seq<Token>, upto: int) -> bool {
    &&& 0 <= upto <= bytes.len()
    &&& forall|j: int|
        0 <= j < toks.len() ==> longest_lexeme(
            bytes,
            #[trigger] toks[j].start as int,
            token_end(toks[j]),
            toks[j].kind,
        )
    &&& toks.len() > 0 ==> all_space(bytes, 0, toks[0].start as int)
    &&& forall|j: int, k: int|
        0 <= j && k == j + 1 && k < toks.len() ==> #[trigger] space_between(bytes, toks[j], toks[k])
    &&& all_space(
        bytes,
        if toks.len() == 0 {
            0
        } else {
            token_end(toks.last())
        },
        upto,
    )
    &&& forall|j: int| 0 <= j < toks.len() ==> token_end(#[trigger] toks[j]) <= upto
}

/// Token `b` follows token `a` with only whitespace between them.
pub open spec fn space_between(bytes: Seq<u8>, a: Token, b: Token) -> bool {
    token_end(a) <= b.start && all_space(bytes, token_end(a), b.start as int)
}

/// The width in bytes of the UTF-8 character that starts with `b`.
pub open spec fn utf8_width(b: u8) -> int {
    if b < 0xc0 {
        1
    } else if b < 0xe0 {
        2
    } else if b < 0xf0 {
        3
    } else {
        4
    }
}

/// A text starting with `#` is a comment or no token at all.
proof fn lemma_hash_start(s: Seq<u8>, k: TokenKind)
    requires
        s.len() >= 1,
        s[0] == 35,
        is_lexeme(k, s),
    ensures
        k == TokenKind::Comment,
{
    if k == TokenKind::Float {
        let d = choose|d: int|
            1 <= d && d + 2 <= s.len() && #[trigger] s[d] == 46 && all_digits(s.take(d))
                && all_digits(s.skip(d + 1));
        assert(s.take(d)[0] == s[0]);
    }
}

fn scan_comment(bytes: &[u8], i: usize) -> (end: usize)
    requires
        i < bytes@.len(),
        bytes@[i as int] == 35,
    ensures
        longest_lexeme(bytes@, i as int, end as int, TokenKind::Comment),
{
    let n = bytes.len();
    let mut j: usize = i + 1;
    while j < n && bytes[j] != 10
        invariant
            i < j <= bytes@.len(),
            n == bytes@.len(),
            bytes@[i as int] == 35,
            forall|x: int| i < x < j ==> bytes@[x] != 10,
        decreases bytes@.len() - j,
    {
        j = j + 1;
    }
    let ghost b = bytes@;
    assert(is_lexeme(TokenKind::Comment, b.subrange(i as int, j as int)));
    assert forall|e: int| j < e <= b.len() implies !is_any_lexeme(
        #[trigger] b.subrange(i as int, e),
    ) by {
        let t = b.subrange(i as int, e);
        assert forall|k: TokenKind| !is_lexeme(k, t) by {
            if is_lexeme(k, t) {
                lemma_hash_start(t, k);
                assert(t[j - i] == 10);
            }
        }
    }
    j
}

/// The keyword that `bytes[i..j]` spells, if any.
fn keyword_kind(bytes: &[u8], i: usize, j: usize) -> (r: Option<TokenKind>)
    requires
        i < j <= bytes@.len(),
    ensures
        match r {
            Some(k) => fixed_text(k) == bytes@.subrange(i as int, j as int) && is_keyword_kind(k),
            None => !is_keyword(bytes@.subrange(i as int, j as int)),
        },
{
    let ghost t = bytes@.subrange(i as int, j as int);
    let len = j - i;
    let r = if len == 6 && bytes[i] == 105 && bytes[i + 1] == 109 && bytes[i + 2] == 112
        && bytes[i + 3] == 111 && bytes[i + 4] == 114 && bytes[i + 5] == 116 {
        Some(TokenKind::Import)
    } else if len == 4 && bytes[i] == 102 && bytes[i + 1] == 117 && bytes[i + 2] == 110 && bytes[i
        + 3] == 99 {
        Some(TokenKind::Func)
    } else if len == 3 && bytes[i] == 108 && bytes[i + 1] == 101 && bytes[i + 2] == 116 {
        Some(TokenKind::Let)
    } else if len == 3 && bytes[i] == 118 && bytes[i + 1] == 97 && bytes[i + 2] == 114 {
        Some(TokenKind::Var)
    } else if len == 3 && bytes[i] == 102 && bytes[i + 1] == 111 && bytes[i + 2] == 114 {
        Some(TokenKind::For)
    } else if len == 2 && bytes[i] == 105 && bytes[i + 1] == 110 {
        Some(TokenKind::In)
    } else {
        None
    };
    proof {
        match r {
            Some(k) => {
                assert(fixed_text(k) =~= t);
                assert(is_keyword(t));
            },
            None => {
                assert forall|x: int| 0 <= x < t.len() implies t[x] == bytes@[i + x] by {}
                let kws = seq![
                    TokenKind::Import,
                    TokenKind::Func,
                    TokenKind::Let,
                    TokenKind::Var,
                    TokenKind::For,
                    TokenKind::In,
                ];
                assert forall|m: int| 0 <= m < 6 implies t != fixed_text(#[trigger] kws[m]) by {
                    let u = fixed_text(kws[m]);
                    if t == u {
                        assert(u[0] == t[0]);
                        assert(u[1] == t[1]);
                        if u.len() >= 3 {
                            assert(u[2] == t[2]);
                        }
                        if u.len() >= 4 {
                            assert(u[3] == t[3]);
                        }
                        if u.len() >= 6 {
                            assert(u[4] == t[4]);
                            assert(u[5] == t[5]);
                        }
                    }
                }
                assert(t != fixed_text(kws[0]));
                assert(t != fixed_text(kws[1]));
                assert(t != fixed_text(kws[2]));
                assert(t != fixed_text(kws[3]));
                assert(t != fixed_text(kws[4]));
                assert(t != fixed_text(kws[5]));
            },
        }
    }
    r
}

/// A text starting with a letter or `_` is an identifier, a keyword or no token.
proof fn lemma_word_start(s: Seq<u8>, k: TokenKind)
    requires
        s.len() >= 1,
        is_ident_start(s[0]),
        is_lexeme(k, s),
    ensures
        k == TokenKind::Ident || (s == fixed_text(k) && is_keyword(s) && forall|i: int|
            0 <= i < s.len() ==> is_word(#[trigger] s[i])),
{
    if k == TokenKind::Float {
        let d = choose|d: int|
            1 <= d && d + 2 <= s.len() && #[trigger] s[d] == 46 && all_digits(s.take(d))
                && all_digits(s.skip(d + 1));
        assert(s.take(d)[0] == s[0]);
    }
    if k == TokenKind::Int {
        assert(is_digit(s[0]));
    }
}

fn scan_word(bytes: &[u8], i: usize) -> (r: (TokenKind, usize))
    requires
        i < bytes@.len(),
        is_ident_start(bytes@[i as int]),
    ensures
        longest_lexeme(bytes@, i as int, r.1 as int, r.0),
{
    let n = bytes.len();
    let mut j: usize = i + 1;
    while j < n && (bytes[j] == 95 || (65 <= bytes[j] && bytes[j] <= 90) || (97 <= bytes[j]
        && bytes[j] <= 122) || (48 <= bytes[j] && bytes[j] <= 57))
        invariant
            i < j <= bytes@.len(),
            n == bytes@.len(),
            is_ident_start(bytes@[i as int]),
            forall|x: int| i < x < j ==> is_word(#[trigger] bytes@[x]),
        decreases bytes@.len() - j,
    {
        j = j + 1;
    }
    let ghost b = bytes@;
    let kind = match keyword_kind(bytes, i, j) {
        Some(k) => k,
        None => TokenKind::Ident,
    };
    proof {
        let t = b.subrange(i as int, j as int);
        if kind == TokenKind::Ident {
            assert forall|x: int| 1 <= x < t.len() implies is_word(#[trigger] t[x]) by {
                assert(t[x] == b[i + x]);
            }
        } else {
            assert(t == fixed_text(kind));
        }
        assert(is_lexeme(kind, t));
        assert forall|e: int| j < e <= b.len() implies !is_any_lexeme(
            #[trigger] b.subrange(i as int, e),
        ) by {
            let u = b.subrange(i as int, e);
            assert forall|k: TokenKind| !is_lexeme(k, u) by {
                if is_lexeme(k, u) {
                    assert(u[0] == b[i as int]);
                    lemma_word_start(u, k);
                    assert(u[j - i] == b[j as int]);
                }
            }
        }
    }
    (kind, j)
}

/// A text starting with a digit is an integer, a number or no token.
proof fn lemma_digit_start(s: Seq<u8>, k: TokenKind)
    requires
        s.len() >= 1,
        is_digit(s[0]),
        is_lexeme(k, s),
    ensures
        k == TokenKind::Int || k == TokenKind::Float,
{
}

/// Where a number's dot must stand: after the leading run of digits.
proof fn lemma_float_dot(s: Seq<u8>, run: int)
    requires
        is_lexeme(TokenKind::Float, s),
        0 <= run <= s.len(),
        forall|x: int| 0 <= x < run ==> is_digit(#[trigger] s[x]),
        run < s.len() ==> !is_digit(s[run]),
    ensures
        run + 2 <= s.len(),
        s[run] == 46,
        forall|x: int| run < x < s.len() ==> is_digit(#[trigger] s[x]),
{
    let d = choose|d: int|
        1 <= d && d + 2 <= s.len() && #[trigger] s[d] == 46 && all_digits(s.take(d)) && all_digits(
            s.skip(d + 1),
        );
    if d < run {
        assert(is_digit(s[d]));
    }
    if d > run {
        assert(s.take(d)[run] == s[run]);
    }
    assert forall|x: int| run < x < s.len() implies is_digit(#[trigger] s[x]) by {
        assert(s.skip(d + 1)[x - d - 1] == s[x]);
    }
}

fn scan_number(bytes: &[u8], i: usize) -> (r: (TokenKind, usize))
    requires
        i < bytes@.len(),
        is_digit(bytes@[i as int]),
    ensures
        longest_lexeme(bytes@, i as int, r.1 as int, r.0),
{
    let n = bytes.len();
    let mut j: usize = i + 1;
    while j < n && 48 <= bytes[j] && bytes[j] <= 57
        invariant
            i < j <= bytes@.len(),
            n == bytes@.len(),
            forall|x: int| i <= x < j ==> is_digit(#[trigger] bytes@[x]),
        decreases bytes@.len() - j,
    {
        j = j + 1;
    }
    let ghost b = bytes@;
    if j < n - 1 && bytes[j] == 46 && 48 <= bytes[j + 1] && bytes[j + 1] <= 57 {
        let dot = j;
        let mut f: usize = j + 2;
        while f < n && 48 <= bytes[f] && bytes[f] <= 57
            invariant
                dot + 2 <= f <= bytes@.len(),
                n == bytes@.len(),
                forall|x: int| dot < x < f ==> is_digit(#[trigger] bytes@[x]),
            decreases bytes@.len() - f,
        {
            f = f + 1;
        }
        proof {
            let t = b.subrange(i as int, f as int);
            let d = dot - i;
            assert(t[d] == 46);
            assert(all_digits(t.take(d))) by {
                assert forall|x: int| 0 <= x < d implies is_digit(#[trigger] t.take(d)[x]) by {
                    assert(t.take(d)[x] == b[i + x]);
                }
            }
            assert(all_digits(t.skip(d + 1))) by {
                assert forall|x: int| 0 <= x < t.skip(d + 1).len() implies is_digit(
                    #[trigger] t.skip(d + 1)[x],
                ) by {
                    assert(t.skip(d + 1)[x] == b[dot + 1 + x]);
                }
            }
            assert(is_lexeme(TokenKind::Float, t));
            assert forall|e: int| f < e <= b.len() implies !is_any_lexeme(
                #[trigger] b.subrange(i as int, e),
            ) by {
                let u = b.subrange(i as int, e);
                assert forall|k: TokenKind| !is_lexeme(k, u) by {
                    if is_lexeme(k, u) {
                        assert(u[0] == b[i as int]);
                        lemma_digit_start(u, k);
                        if k == TokenKind::Int {
                            assert(u[d] == 46);
                        } else {
                            assert forall|x: int| 0 <= x < d implies is_digit(#[trigger] u[x]) by {
                                assert(u[x] == b[i + x]);
                            }
                            lemma_float_dot(u, d);
                            assert(u[f - i] == b[f as int]);
                        }
                    }
                }
            }
        }
        (TokenKind::Float, f)
    } else {
        proof {
            let t = b.subrange(i as int, j as int);
            assert(all_digits(t)) by {
                assert forall|x: int| 0 <= x < t.len() implies is_digit(#[trigger] t[x]) by {
                    assert(t[x] == b[i + x]);
                }
            }
            assert(is_lexeme(TokenKind::Int, t));
            let d = j - i;
            assert forall|e: int| j < e <= b.len() implies !is_any_lexeme(
                #[trigger] b.subrange(i as int, e),
            ) by {
                let u = b.subrange(i as int, e);
                assert forall|k: TokenKind| !is_lexeme(k, u) by {
                    if is_lexeme(k, u) {
                        assert(u[0] == b[i as int]);
                        lemma_digit_start(u, k);
                        assert(u[d] == b[j as int]);
                        if k == TokenKind::Float {
                            assert forall|x: int| 0 <= x < d implies is_digit(#[trigger] u[x]) by {
                                assert(u[x] == b[i + x]);
                            }
                            lemma_float_dot(u, d);
                            assert(u[d + 1] == b[j + 1]);
                        }
                    }
                }
            }
        }
        (TokenKind::Int, j)
    }
}

/// A token that starts with neither `#`, a letter, `_` nor a digit is spelled out exactly.
proof fn lemma_other_start(s: Seq<u8>, k: TokenKind)
    requires
        s.len() >= 1,
        s[0] != 35,
        !is_word(s[0]),
        is_lexeme(k, s),
    ensures
        s == fixed_text(k),
        k != TokenKind::Eof && k != TokenKind::Comment && k != TokenKind::Ident && k != TokenKind::Int
            && k != TokenKind::Float,
        1 <= s.len() <= 2,
        s.len() == 2 ==> (s[0] == 46 && s[1] == 46) || (s[1] == 61 && (s[0] == 43 || s[0] == 45
            || s[0] == 42 || s[0] == 47)),
{
    if k == TokenKind::Float {
        let d = choose|d: int|
            1 <= d && d + 2 <= s.len() && #[trigger] s[d] == 46 && all_digits(s.take(d))
                && all_digits(s.skip(d + 1));
        assert(s.take(d)[0] == s[0]);
    }
    if k == TokenKind::Int {
        assert(is_digit(s[0]));
    }
    if is_keyword_kind(k) {
        assert(s[0] == fixed_text(k)[0]);
    }
}

fn scan_punct(bytes: &[u8], i: usize) -> (r: Option<(TokenKind, usize)>)
    requires
        i < bytes@.len(),
        bytes@[i as int] != 35,
        !is_word(bytes@[i as int]),
    ensures
        match r {
            Some((k, e)) => longest_lexeme(bytes@, i as int, e as int, k),
            None => no_lexeme_at(bytes@, i as int),
        },
{
    let n = bytes.len();
    let c = bytes[i];
    let next: u8 = if i < n - 1 {
        bytes[i + 1]
    } else {
        0
    };
    let single = match c {
        40 => Some(TokenKind::LParen),
        41 => Some(TokenKind::RParen),
        91 => Some(TokenKind::LBracket),
        93 => Some(TokenKind::RBracket),
        123 => Some(TokenKind::LBrace),
        125 => Some(TokenKind::RBrace),
        44 => Some(TokenKind::Comma),
        58 => Some(TokenKind::Colon),
        59 => Some(TokenKind::Semicolon),
        61 => Some(TokenKind::Equals),
        46 => Some(TokenKind::Dot),
        43 => Some(TokenKind::Plus),
        45 => Some(TokenKind::Minus),
        42 => Some(TokenKind::Times),
        47 => Some(TokenKind::Divide),
        _ => None,
    };
    let double = if c == 46 && next == 46 {
        Some(TokenKind::DotDot)
    } else if next == 61 {
        match c {
            43 => Some(TokenKind::PlusEquals),
            45 => Some(TokenKind::MinusEquals),
            42 => Some(TokenKind::TimesEquals),
            47 => Some(TokenKind::DivideEquals),
            _ => None,
        }
    } else {
        None
    };
    let ghost b = bytes@;
    match double {
        Some(k) => {
            proof {
                let t = b.subrange(i as int, i + 2);
                assert(t =~= fixed_text(k));
                assert forall|e: int| i + 2 < e <= b.len() implies !is_any_lexeme(
                    #[trigger] b.subrange(i as int, e),
                ) by {
                    let u = b.subrange(i as int, e);
                    assert forall|kk: TokenKind| !is_lexeme(kk, u) by {
                        if is_lexeme(kk, u) {
                            assert(u[0] == c);
                            lemma_other_start(u, kk);
                        }
                    }
                }
            }
            Some((k, i + 2))
        },
        None => match single {
            Some(k) => {
                proof {
                    let t = b.subrange(i as int, i + 1);
                    assert(t =~= fixed_text(k));
                    assert forall|e: int| i + 1 < e <= b.len() implies !is_any_lexeme(
                        #[trigger] b.subrange(i as int, e),
                    ) by {
                        let u = b.subrange(i as int, e);
                        assert forall|kk: TokenKind| !is_lexeme(kk, u) by {
                            if is_lexeme(kk, u) {
                                assert(u[0] == c);
                                assert(u[1] == next);
                                lemma_other_start(u, kk);
                            }
                        }
                    }
                }
                Some((k, i + 1))
            },
            None => {
                proof {
                    assert forall|e: int| i < e <= b.len() implies !is_any_lexeme(
                        #[trigger] b.subrange(i as int, e),
                    ) by {
                        let u = b.subrange(i as int, e);
                        assert forall|kk: TokenKind| !is_lexeme(kk, u) by {
                            if is_lexeme(kk, u) {
                                assert(u[0] == c);
                                lemma_other_start(u, kk);
                            }
                        }
                    }
                }
                None
            },
        },
    }
}

/// The position of a token in a token sequence.
pub type TokenId = usize;

/// The token sequence of a source; the last token is always `Eof`.
pub type Tokens = Vec<Token>;

/// The largest length in bytes of one token.
pub const TOKEN_LIMIT: u64 = 0xffff;

/// The token that ends the tokens of a source of `n` bytes.
pub open spec fn eof_token(t: Token, n: int) -> bool {
    t.kind == TokenKind::Eof && t.start == n && t.len == 0
}

/// No token of `toks` is longer than the limit.
pub open spec fn within_limit(toks: Seq<Token>) -> bool {
    forall|j: int| 0 <= j < toks.len() ==> token_end(#[trigger] toks[j]) - toks[j].start <= TOKEN_LIMIT
}

/// The well-formed outcome of lexing `bytes`.
pub open spec fn lex_result(bytes: Seq<u8>, r: Result<Tokens, LexError>) -> bool {
    &&& (r matches Err(LexError::SourceTooLong)) <==> bytes.len() > SOURCE_LIMIT
    &&& r matches Ok(toks) ==> {
        &&& toks@.len() >= 1
        &&& eof_token(toks@.last(), bytes.len() as int)
        &&& tokenizes(bytes, toks@.drop_last(), bytes.len() as int)
        &&& forall|j: int| 0 <= j < toks@.len() - 1 ==> token_end(#[trigger] toks@[j]) - toks@[j].start <= TOKEN_LIMIT
    }
    &&& r matches Err(LexError::TokenTooLong { start, end }) ==> {
        &&& end - start > TOKEN_LIMIT
        &&& exists|k: TokenKind| longest_lexeme(bytes, start as int, end as int, k)
        &&& exists|toks: Seq<Token>| tokenizes(bytes, toks, start as int) && within_limit(toks)
    }
    &&& r matches Err(LexError::InvalidToken { start, len }) ==> {
        &&& start < bytes.len()
        &&& !is_space(bytes[start as int])
        &&& no_lexeme_at(bytes, start as int)
        &&& len == if start + utf8_width(bytes[start as int]) <= bytes.len() {
            utf8_width(bytes[start as int])
        } else {
            bytes.len() - start
        }
        &&& exists|toks: Seq<Token>| tokenizes(bytes, toks, start as int) && within_limit(toks)
    }
}

/// The longest token at `i`, or `None` where no token starts there.
fn scan(bytes: &[u8], i: usize) -> (r: Option<(TokenKind, usize)>)
    requires
        i < bytes@.len(),
    ensures
        match r {
            Some((k, e)) => longest_lexeme(bytes@, i as int, e as int, k),
            None => no_lexeme_at(bytes@, i as int),
        },
{
    let c = bytes[i];
    if c == 35 {
        Some((TokenKind::Comment, scan_comment(bytes, i)))
    } else if c == 95 || (65 <= c && c <= 90) || (97 <= c && c <= 122) {
        let (k, e) = scan_word(bytes, i);
        Some((k, e))
    } else if 48 <= c && c <= 57 {
        let (k, e) = scan_number(bytes, i);
        Some((k, e))
    } else {
        scan_punct(bytes, i)
    }
}

/// Splits a source into tokens: at each place the longest token, with
/// whitespace skipped, and an `Eof` token at the end.
pub fn lex(source: &str) -> (r: Result<Tokens, LexError>)
    ensures
        lex_result(source.spec_bytes(), r),
{
    let bytes = source.as_bytes();
    let n = bytes.len();
    if n as u64 > SOURCE_LIMIT {
        return Err(LexError::SourceTooLong);
    }
    let ghost b = bytes@;
    assert(b == source.spec_bytes());
    let mut tokens: Tokens = Vec::new();
    let mut i: usize = 0;
    while i < n
        invariant
            b == bytes@,
            b == source.spec_bytes(),
            n == b.len(),
            n <= SOURCE_LIMIT,
            i <= n,
            tokenizes(b, tokens@, i as int),
            forall|j: int| 0 <= j < tokens@.len() ==> token_end(#[trigger] tokens@[j]) - tokens@[j].start <= TOKEN_LIMIT,
        decreases n - i,
    {
        let c = bytes[i];
        if c == 32 || c == 9 || c == 10 || c == 11 || c == 12 || c == 13 {
            i = i + 1;
        } else {
            match scan(bytes, i) {
                Some((kind, end)) => {
                    if end - i > 0xffff {
                        let r = Err(LexError::TokenTooLong { start: i as u32, end: end as u32 });
                        proof {
                            assert(tokenizes(b, tokens@, i as int));
                            assert(longest_lexeme(b, i as int, end as int, kind));
                            assert(within_limit(tokens@));
                            assert(lex_result(b, r));
                        }
                        return r;
                    }
                    let t = Token { start: i as u32, len: (end - i) as u16, kind };
                    let ghost old_toks = tokens@;
                    tokens.push(t);
                    proof {
                        let ts = tokens@;
                        assert(ts.drop_last() =~= old_toks);
                        assert forall|j: int| 0 <= j < ts.len() implies longest_lexeme(
                            b,
                            #[trigger] ts[j].start as int,
                            token_end(ts[j]),
                            ts[j].kind,
                        ) by {
                            if j < old_toks.len() {
                                assert(ts[j] == old_toks[j]);
                            }
                        }
                        if old_toks.len() == 0 {
                            assert(ts[0] == t);
                        } else {
                            assert(ts[0] == old_toks[0]);
                        }
                        assert forall|j: int, k: int|
                            0 <= j && k == j + 1 && k < ts.len() implies #[trigger] space_between(
                            b,
                            ts[j],
                            ts[k],
                        ) by {
                            assert(ts[j] == old_toks[j]);
                            if k < old_toks.len() {
                                assert(ts[k] == old_toks[k]);
                                assert(space_between(b, old_toks[j], old_toks[k]));
                            } else {
                                assert(ts[j] == old_toks.last());
                            }
                        }
                    }
                    i = end;
                },
                None => {
                    let w: usize = if c < 0xc0 {
                        1
                    } else if c < 0xe0 {
                        2
                    } else if c < 0xf0 {
                        3
                    } else {
                        4
                    };
                    let len = if w <= n - i {
                        w
                    } else {
                        n - i
                    };
                    let r = Err(LexError::InvalidToken { start: i as u32, len: len as u16 });
                    proof {
                        assert(tokenizes(b, tokens@, i as int));
                        assert(!is_space(b[i as int]));
                        assert(no_lexeme_at(b, i as int));
                        assert(within_limit(tokens@));
                        assert(lex_result(b, r));
                    }
                    return r;
                },
            }
        }
    }
    tokens.push(Token { start: n as u32, len: 0, kind: TokenKind::Eof });
    proof {
        assert(tokens@.drop_last() =~= tokens@.subrange(0, tokens@.len() - 1));
    }
    Ok(tokens)
}

/// An identifier token of a tokenization lies within the source and is
/// spelled with ASCII bytes.
pub proof fn lemma_ident_ascii(bytes: Seq<u8>, toks: Seq<Token>, upto: int, j: int)
    requires
        tokenizes(bytes, toks, upto),
        0 <= j < toks.len(),
        toks[j].kind == TokenKind::Ident,
    ensures
        0 < toks[j].len,
        toks[j].start + toks[j].len <= bytes.len(),
        forall|x: int| toks[j].start <= x < toks[j].start + toks[j].len ==> #[trigger] bytes[x] < 0x80,
{
    let t = toks[j];
    assert(longest_lexeme(bytes, t.start as int, token_end(t), t.kind));
    let sub = bytes.subrange(t.start as int, t.start + t.len);
    assert(is_lexeme(TokenKind::Ident, sub));
    assert forall|x: int| t.start <= x < t.start + t.len implies #[trigger] bytes[x] < 0x80 by {
        assert(sub[x - t.start] == bytes[x]);
        if x > t.start {
            assert(is_word(sub[x - t.start]));
        }
    }
}

/// No token starts with whitespace.
proof fn lemma_lexeme_starts_solid(k: TokenKind, s: Seq<u8>)
    requires
        is_lexeme(k, s),
    ensures
        s.len() >= 1,
        !is_space(s[0]),
{
    if k == TokenKind::Float {
        let d = choose|d: int|
            1 <= d && d + 2 <= s.len() && #[trigger] s[d] == 46 && all_digits(s.take(d))
                && all_digits(s.skip(d + 1));
        assert(s.take(d)[0] == s[0]);
    } else if k == TokenKind::Int {
        assert(is_digit(s[0]));
    }
    if s.len() >= 1 && is_space(s[0]) {
        lemma_other_start(s, k);
    }
}

/// A text is a token of one kind at most.
proof fn lemma_lexeme_kind_unique(k1: TokenKind, k2: TokenKind, s: Seq<u8>)
    requires
        is_lexeme(k1, s),
        is_lexeme(k2, s),
    ensures
        k1 == k2,
{
    lemma_lexeme_starts_solid(k1, s);
    if s[0] == 35 {
        lemma_hash_start(s, k1);
        lemma_hash_start(s, k2);
    } else if is_ident_start(s[0]) {
        lemma_word_start(s, k1);
        lemma_word_start(s, k2);
    } else if is_digit(s[0]) {
        lemma_digit_start(s, k1);
        lemma_digit_start(s, k2);
        if k1 != k2 {
            let f = if k1 == TokenKind::Float { k1 } else { k2 };
            assert(is_lexeme(f, s));
            let d = choose|d: int|
                1 <= d && d + 2 <= s.len() && #[trigger] s[d] == 46 && all_digits(s.take(d))
                    && all_digits(s.skip(d + 1));
            assert(is_digit(s[d]));
        }
    } else {
        lemma_other_start(s, k1);
        lemma_other_start(s, k2);
        assert(fixed_text(k1) == fixed_text(k2));
    }
}

/// Two tokenizations of the same bytes agree on their first `j` tokens.
proof fn lemma_tokenizations_agree(bytes: Seq<u8>, t1: Seq<Token>, t2: Seq<Token>, upto: int, j: int)
    requires
        tokenizes(bytes, t1, upto),
        tokenizes(bytes, t2, upto),
        0 <= j <= t1.len(),
        j <= t2.len(),
    ensures
        forall|i: int| 0 <= i < j ==> #[trigger] t1[i] == t2[i],
    decreases j,
{
    if j > 0 {
        lemma_tokenizations_agree(bytes, t1, t2, upto, j - 1);
        let i = j - 1;
        let a = t1[i];
        let b = t2[i];
        let prev = if i == 0 {
            0
        } else {
            token_end(t1[i - 1])
        };
        if i > 0 {
            assert(t1[i - 1] == t2[i - 1]);
            assert(space_between(bytes, t1[i - 1], t1[i]));
            assert(space_between(bytes, t2[i - 1], t2[i]));
        }
        assert(all_space(bytes, prev, a.start as int));
        assert(all_space(bytes, prev, b.start as int));
        assert(longest_lexeme(bytes, a.start as int, token_end(a), a.kind));
        assert(longest_lexeme(bytes, b.start as int, token_end(b), b.kind));
        lemma_lexeme_starts_solid(a.kind, bytes.subrange(a.start as int, token_end(a)));
        lemma_lexeme_starts_solid(b.kind, bytes.subrange(b.start as int, token_end(b)));
        assert(bytes.subrange(a.start as int, token_end(a))[0] == bytes[a.start as int]);
        assert(bytes.subrange(b.start as int, token_end(b))[0] == bytes[b.start as int]);
        if a.start < b.start {
            assert(is_space(bytes[a.start as int]));
        }
        if b.start < a.start {
            assert(is_space(bytes[b.start as int]));
        }
        assert(a.start == b.start);
        let st = a.start as int;
        if token_end(a) < token_end(b) {
            assert(is_any_lexeme(bytes.subrange(st, token_end(b))));
        }
        if token_end(b) < token_end(a) {
            assert(is_any_lexeme(bytes.subrange(st, token_end(a))));
        }
        assert(token_end(a) == token_end(b));
        lemma_lexeme_kind_unique(a.kind, b.kind, bytes.subrange(st, token_end(a)));
    }
}

/// Lexing is deterministic: a source has at most one tokenization, so the
/// tokens that `lex` returns are the only ones its contract admits.
pub proof fn law_tokenization_unique(bytes: Seq<u8>, t1: Seq<Token>, t2: Seq<Token>, upto: int)
    requires
        tokenizes(bytes, t1, upto),
        tokenizes(bytes, t2, upto),
    ensures
        t1 == t2,
{
    let m = if t1.len() <= t2.len() {
        t1.len() as int
    } else {
        t2.len() as int
    };
    lemma_tokenizations_agree(bytes, t1, t2, upto, m);
    if t1.len() < t2.len() {
        lemma_no_token_after(bytes, t1, t2, upto);
    }
    if t2.len() < t1.len() {
        lemma_no_token_after(bytes, t2, t1, upto);
    }
    assert(t1 =~= t2);
}

/// A tokenization is not the start of a longer one.
proof fn lemma_no_token_after(bytes: Seq<u8>, short: Seq<Token>, long: Seq<Token>, upto: int)
    requires
        tokenizes(bytes, short, upto),
        tokenizes(bytes, long, upto),
        short.len() <= long.len(),
        forall|i: int| 0 <= i < short.len() ==> #[trigger] short[i] == long[i],
    ensures
        short.len() == long.len(),
{
    if short.len() < long.len() {
        let j = short.len() as int;
        let t = long[j];
        let prev = if j == 0 {
            0
        } else {
            token_end(short[j - 1])
        };
        if j > 0 {
            assert(short[j - 1] == long[j - 1]);
            assert(space_between(bytes, long[j - 1], long[j]));
        }
        assert(longest_lexeme(bytes, t.start as int, token_end(t), t.kind));
        lemma_lexeme_starts_solid(t.kind, bytes.subrange(t.start as int, token_end(t)));
        assert(bytes.subrange(t.start as int, token_end(t))[0] == bytes[t.start as int]);
        assert(token_end(t) <= upto);
        assert(prev <= t.start);
        assert(is_space(bytes[t.start as int]));
    }
}

} // verus!
