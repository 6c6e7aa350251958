use vstd::prelude::*;
use vstd::string::StrSliceExecFns;
use vstd::string::StringExecFns;

use crate::error::ErrModel;
use crate::error::JsonError;
use crate::value::lemma_strip_zeros;
use crate::value::lemma_strip_zeros_u64;
use crate::value::norm_of;
use crate::value::strip_zeros;
use crate::value::JsonNumber;
use crate::JsonResult;

verus! {

/// The model of a [`Token`]: the same variants, with text as a character
/// sequence.
pub enum Tok {
    Comma,
    Colon,
    BracketOn,
    BracketOff,
    BraceOn,
    BraceOff,
    String(Seq<char>),
    Number(JsonNumber),
    Boolen(bool),
    Null,
}

impl Tok {
    /// The name under which an out-of-place token of this kind is reported.
    pub open spec fn describe(self) -> Seq<char> {
        match self {
            Tok::Comma => "Comma"@,
            Tok::Colon => "Colon"@,
            Tok::BracketOn => "BracketOn"@,
            Tok::BracketOff => "BracketOff"@,
            Tok::BraceOn => "BraceOn"@,
            Tok::BraceOff => "BraceOff"@,
            Tok::String(_) => "String"@,
            Tok::Number(_) => "Number"@,
            Tok::Boolen(_) => "Boolen"@,
            Tok::Null => "Null"@,
        }
    }
}

/// One lexical unit of JSON text: structural punctuation, or a literal with
/// its decoded payload.
#[derive(Debug, PartialEq)]
pub enum Token {
    Comma,
    Colon,
    BracketOn,
    BracketOff,
    BraceOn,
    BraceOff,
    String(String),
    Number(JsonNumber),
    Boolen(bool),
    Null,
}

impl View for Token {
    type V = Tok;

    open spec fn view(&self) -> Tok {
        match self {
            Token::Comma => Tok::Comma,
            Token::Colon => Tok::Colon,
            Token::BracketOn => Tok::BracketOn,
            Token::BracketOff => Tok::BracketOff,
            Token::BraceOn => Tok::BraceOn,
            Token::BraceOff => Tok::BraceOff,
            Token::String(s) => Tok::String(s@),
            Token::Number(n) => Tok::Number(*n),
            Token::Boolen(b) => Tok::Boolen(*b),
            Token::Null => Tok::Null,
        }
    }
}

impl Token {
    /// The name under which this token is reported when it is out of place.
    pub fn describe(&self) -> (r: String)
        ensures
            r@ == self@.describe(),
    {
        match self {
            Token::Comma => String::from_str("Comma"),
            Token::Colon => String::from_str("Colon"),
            Token::BracketOn => String::from_str("BracketOn"),
            Token::BracketOff => String::from_str("BracketOff"),
            Token::BraceOn => String::from_str("BraceOn"),
            Token::BraceOff => String::from_str("BraceOff"),
            Token::String(_) => String::from_str("String"),
            Token::Number(_) => String::from_str("Number"),
            Token::Boolen(_) => String::from_str("Boolen"),
            Token::Null => String::from_str("Null"),
        }
    }
}

/// The four characters that are insignificant whitespace between tokens.
pub open spec fn is_ws(c: char) -> bool {
    c == ' ' || c == '\t' || c == '\n' || c == '\r'
}

pub open spec fn is_digit(c: char) -> bool {
    48 <= (c as u32) <= 57
}

pub open spec fn digit_val(c: char) -> u32 {
    ((c as u32) - 48) as u32
}

pub open spec fn is_hex(c: char) -> bool {
    is_digit(c) || (97 <= (c as u32) <= 102) || (65 <= (c as u32) <= 70)
}

/// The value of one hexadecimal digit, of either case.
pub open spec fn hex_val(c: char) -> u32 {
    if is_digit(c) {
        ((c as u32) - 48) as u32
    } else if 97 <= (c as u32) <= 102 {
        ((c as u32) - 87) as u32
    } else {
        ((c as u32) - 55) as u32
    }
}

/// The characters a number lexeme is accumulated from; the first one outside
/// this set ends the lexeme.
pub open spec fn is_num_char(c: char) -> bool {
    is_digit(c) || c == '.' || c == 'e' || c == 'E' || c == '+' || c == '-'
}

/// Largest mantissa that can still take one more decimal digit in 64 bits.
/// A further significant digit is dropped instead, losing precision exactly
/// as a fixed-width representation must.
pub const MANT_FIT: u64 = 1844674407370955160;

/// Saturation bound for exponent bookkeeping while scanning a number: once
/// beyond it, the final exponent is out of range whatever follows.
pub const EXP_SAT: i64 = 1000000;

/// The payload reported when a `\u` escape holds a surrogate with no valid
/// partner.
pub open spec fn surrogate_msg() -> Seq<char> {
    "lone surrogate in unicode escape"@
}

/// Whether four hex digits stand at `i`.
pub open spec fn hex4_ok(s: Seq<char>, i: int) -> bool {
    &&& i + 4 <= s.len()
    &&& is_hex(s[i])
    &&& is_hex(s[i + 1])
    &&& is_hex(s[i + 2])
    &&& is_hex(s[i + 3])
}

/// The error for the first failing position of a four-hex-digit run at `i`.
pub open spec fn hex4_err(s: Seq<char>, i: int) -> ErrModel {
    if i >= s.len() {
        ErrModel::UnexpectedEndOfJson
    } else if !is_hex(s[i]) {
        ErrModel::UnexpectedCharacter(s[i])
    } else if i + 1 >= s.len() {
        ErrModel::UnexpectedEndOfJson
    } else if !is_hex(s[i + 1]) {
        ErrModel::UnexpectedCharacter(s[i + 1])
    } else if i + 2 >= s.len() {
        ErrModel::UnexpectedEndOfJson
    } else if !is_hex(s[i + 2]) {
        ErrModel::UnexpectedCharacter(s[i + 2])
    } else if i + 3 >= s.len() {
        ErrModel::UnexpectedEndOfJson
    } else {
        ErrModel::UnexpectedCharacter(s[i + 3])
    }
}

/// The value of the four hex digits at `i`.
pub open spec fn hex4_val(s: Seq<char>, i: int) -> u32
    recommends
        hex4_ok(s, i),
{
    (((hex_val(s[i]) * 16 + hex_val(s[i + 1])) * 16 + hex_val(s[i + 2])) * 16 + hex_val(
        s[i + 3],
    )) as u32
}

/// Reading a keyword (`null`, `true`, `false`): `want` is what is still
/// expected, `sofar` what was already consumed of it. A mismatch reports the
/// malformed prefix.
pub open spec fn lex_keyword(
    s: Seq<char>,
    i: int,
    want: Seq<char>,
    t: Tok,
    sofar: Seq<char>,
) -> Result<(Tok, int), ErrModel>
    decreases want.len(),
{
    if want.len() == 0 {
        Ok((t, i))
    } else if i >= s.len() {
        Err(ErrModel::UnexpectedEndOfJson)
    } else if s[i] == want[0] {
        lex_keyword(s, i + 1, want.skip(1), t, sofar.push(s[i]))
    } else {
        Err(ErrModel::UnexpectedToken(sofar.push(s[i])))
    }
}

/// Reading the body of a string literal from `i` (just past the opening
/// quote), with `acc` the characters decoded so far; ends at the first
/// unescaped closing quote.
pub open spec fn lex_string(s: Seq<char>, i: int, acc: Seq<char>) -> Result<
    (Tok, int),
    ErrModel,
>
    decreases s.len() - i, 1int,
{
    if i < 0 || i >= s.len() {
        Err(ErrModel::UnexpectedEndOfJson)
    } else if s[i] == '"' {
        Ok((Tok::String(acc), i + 1))
    } else if s[i] == '\\' {
        lex_escape(s, i + 1, acc)
    } else {
        lex_string(s, i + 1, acc.push(s[i]))
    }
}

/// Reading one escape sequence from `i` (just past the backslash). The short
/// escapes stand for their control characters; any other single character
/// stands for itself; `\u` begins a four-digit scalar escape.
pub open spec fn lex_escape(s: Seq<char>, i: int, acc: Seq<char>) -> Result<
    (Tok, int),
    ErrModel,
>
    decreases s.len() - i, 0int,
{
    if i < 0 || i >= s.len() {
        Err(ErrModel::UnexpectedEndOfJson)
    } else if s[i] == 'b' {
        lex_string(s, i + 1, acc.push('\u{8}'))
    } else if s[i] == 'f' {
        lex_string(s, i + 1, acc.push('\u{c}'))
    } else if s[i] == 'n' {
        lex_string(s, i + 1, acc.push('\n'))
    } else if s[i] == 'r' {
        lex_string(s, i + 1, acc.push('\r'))
    } else if s[i] == 't' {
        lex_string(s, i + 1, acc.push('\t'))
    } else if s[i] == 'u' {
        lex_unicode(s, i + 1, acc)
    } else {
        lex_string(s, i + 1, acc.push(s[i]))
    }
}

/// Reading a `\uXXXX` escape from `i` (just past the `u`). A high surrogate
/// must be followed immediately by a `\uXXXX` low surrogate; the pair stands
/// for one scalar value past the basic plane.
pub open spec fn lex_unicode(s: Seq<char>, i: int, acc: Seq<char>) -> Result<
    (Tok, int),
    ErrModel,
>
    decreases s.len() - i, 0int,
{
    if i < 0 {
        Err(ErrModel::UnexpectedEndOfJson)
    } else if !hex4_ok(s, i) {
        Err(hex4_err(s, i))
    } else {
        let cp = hex4_val(s, i);
        if 0xD800 <= cp < 0xDC00 {
            if i + 6 <= s.len() && s[i + 4] == '\\' && s[i + 5] == 'u' {
                if !hex4_ok(s, i + 6) {
                    Err(hex4_err(s, i + 6))
                } else {
                    let lo = hex4_val(s, i + 6);
                    if 0xDC00 <= lo < 0xE000 {
                        let scalar = 0x10000 + (cp - 0xD800) * 0x400 + (lo - 0xDC00);
                        lex_string(s, i + 10, acc.push((scalar as u32) as char))
                    } else {
                        Err(ErrModel::ParsingFailed(surrogate_msg()))
                    }
                }
            } else {
                Err(ErrModel::ParsingFailed(surrogate_msg()))
            }
        } else if 0xDC00 <= cp < 0xE000 {
            Err(ErrModel::ParsingFailed(surrogate_msg()))
        } else {
            lex_string(s, i + 4, acc.push(cp as char))
        }
    }
}

/// One step of mantissa accumulation: a digit that no longer fits is dropped.
pub open spec fn mant_step(m: u64, c: char) -> u64 {
    if m <= MANT_FIT {
        (m * 10 + digit_val(c)) as u64
    } else {
        m
    }
}

/// The token a finished number lexeme denotes, or `InvalidNumber` when no
/// digit was seen or the exponent leaves the supported range.
pub open spec fn num_finish(
    neg: bool,
    m: u64,
    adj: i64,
    e: int,
    seen: bool,
    i: int,
) -> Result<(Tok, int), ErrModel> {
    if !seen {
        Err(ErrModel::InvalidNumber)
    } else {
        let n = norm_of(neg, m as nat, adj + e);
        if m != 0 && !(-1000 <= n.exp <= 1000) {
            Err(ErrModel::InvalidNumber)
        } else {
            Ok((Tok::Number(n), i))
        }
    }
}

/// Scanning the integer digits of a number at `i`: `m` the mantissa so far,
/// `adj` the exponent owed to dropped or fractional digits, `seen` whether
/// any digit was read yet.
pub open spec fn lex_int(
    s: Seq<char>,
    i: int,
    neg: bool,
    m: u64,
    adj: i64,
    seen: bool,
) -> Result<(Tok, int), ErrModel>
    decreases s.len() - i, 3int,
{
    if i < 0 {
        Err(ErrModel::InvalidNumber)
    } else if i >= s.len() || !is_num_char(s[i]) {
        num_finish(neg, m, adj, 0, seen, i)
    } else if is_digit(s[i]) {
        if m <= MANT_FIT {
            lex_int(s, i + 1, neg, mant_step(m, s[i]), adj, true)
        } else {
            lex_int(s, i + 1, neg, m, if adj < EXP_SAT { (adj + 1) as i64 } else { adj }, true)
        }
    } else if s[i] == '.' {
        lex_frac(s, i + 1, neg, m, adj, seen)
    } else if s[i] == 'e' || s[i] == 'E' {
        lex_exp_sign(s, i + 1, neg, m, adj, seen)
    } else {
        Err(ErrModel::InvalidNumber)
    }
}

/// Scanning the digits after the decimal point.
pub open spec fn lex_frac(
    s: Seq<char>,
    i: int,
    neg: bool,
    m: u64,
    adj: i64,
    seen: bool,
) -> Result<(Tok, int), ErrModel>
    decreases s.len() - i, 2int,
{
    if i < 0 {
        Err(ErrModel::InvalidNumber)
    } else if i >= s.len() || !is_num_char(s[i]) {
        num_finish(neg, m, adj, 0, seen, i)
    } else if is_digit(s[i]) {
        if m <= MANT_FIT {
            lex_frac(s, i + 1, neg, mant_step(m, s[i]), if adj > -EXP_SAT {
                (adj - 1) as i64
            } else {
                adj
            }, true)
        } else {
            lex_frac(s, i + 1, neg, m, adj, true)
        }
    } else if s[i] == 'e' || s[i] == 'E' {
        lex_exp_sign(s, i + 1, neg, m, adj, seen)
    } else {
        Err(ErrModel::InvalidNumber)
    }
}

/// Just past the exponent marker: an optional sign, then the exponent digits.
pub open spec fn lex_exp_sign(
    s: Seq<char>,
    i: int,
    neg: bool,
    m: u64,
    adj: i64,
    seen: bool,
) -> Result<(Tok, int), ErrModel>
    decreases s.len() - i, 1int,
{
    if i < 0 || i >= s.len() || !is_num_char(s[i]) {
        Err(ErrModel::InvalidNumber)
    } else if s[i] == '+' {
        lex_exp(s, i + 1, neg, m, adj, seen, false, 0, false)
    } else if s[i] == '-' {
        lex_exp(s, i + 1, neg, m, adj, seen, true, 0, false)
    } else if is_digit(s[i]) {
        lex_exp(s, i, neg, m, adj, seen, false, 0, false)
    } else {
        Err(ErrModel::InvalidNumber)
    }
}

/// Scanning the exponent digits: `esign` its sign, `e` its value so far,
/// `eany` whether any exponent digit was read yet.
pub open spec fn lex_exp(
    s: Seq<char>,
    i: int,
    neg: bool,
    m: u64,
    adj: i64,
    seen: bool,
    esign: bool,
    e: i64,
    eany: bool,
) -> Result<(Tok, int), ErrModel>
    decreases s.len() - i, 0int,
{
    if i < 0 {
        Err(ErrModel::InvalidNumber)
    } else if i >= s.len() || !is_num_char(s[i]) {
        num_finish(neg, m, adj, if esign { -e as int } else { e as int }, seen && eany, i)
    } else if is_digit(s[i]) {
        lex_exp(
            s,
            i + 1,
            neg,
            m,
            adj,
            seen,
            esign,
            if e < EXP_SAT {
                (e * 10 + digit_val(s[i])) as i64
            } else {
                e
            },
            true,
        )
    } else {
        Err(ErrModel::InvalidNumber)
    }
}

/// Reading a number lexeme that starts at `i` with a digit or a minus sign.
pub open spec fn lex_number(s: Seq<char>, i: int) -> Result<(Tok, int), ErrModel>
    recommends
        0 <= i < s.len(),
{
    if 0 <= i < s.len() && s[i] == '-' {
        lex_int(s, i + 1, true, 0, 0, false)
    } else {
        lex_int(s, i, false, 0, 0, false)
    }
}

/// The next token of `s` from position `i`, and the position just past it:
/// the whole lexical grammar of JSON in one function.
pub open spec fn lex(s: Seq<char>, i: int) -> Result<(Tok, int), ErrModel>
    decreases s.len() - i, 2int,
{
    if i < 0 || i >= s.len() {
        Err(ErrModel::UnexpectedEndOfJson)
    } else if is_ws(s[i]) {
        lex(s, i + 1)
    } else if s[i] == ',' {
        Ok((Tok::Comma, i + 1))
    } else if s[i] == ':' {
        Ok((Tok::Colon, i + 1))
    } else if s[i] == '[' {
        Ok((Tok::BracketOn, i + 1))
    } else if s[i] == ']' {
        Ok((Tok::BracketOff, i + 1))
    } else if s[i] == '{' {
        Ok((Tok::BraceOn, i + 1))
    } else if s[i] == '}' {
        Ok((Tok::BraceOff, i + 1))
    } else if s[i] == 'n' {
        lex_keyword(s, i + 1, "ull"@, Tok::Null, "n"@)
    } else if s[i] == 't' {
        lex_keyword(s, i + 1, "rue"@, Tok::Boolen(true), "t"@)
    } else if s[i] == 'f' {
        lex_keyword(s, i + 1, "alse"@, Tok::Boolen(false), "f"@)
    } else if s[i] == '"' {
        lex_string(s, i + 1, Seq::empty())
    } else if s[i] == '-' || is_digit(s[i]) {
        lex_number(s, i)
    } else {
        Err(ErrModel::UnexpectedCharacter(s[i]))
    }
}

/// A number token built by `num_finish` is in normal form.
proof fn lemma_num_finish_norm(neg: bool, m: u64, adj: i64, e: int, seen: bool, i: int)
    ensures
        num_finish(neg, m, adj, e, seen, i) matches Ok(p) ==> (p.0 matches Tok::Number(n)
            && n.norm()),
{
    if seen {
        let n = norm_of(neg, m as nat, adj + e);
        if m != 0 {
            lemma_strip_zeros(m as nat, adj + e);
            lemma_strip_zeros_u64(m as nat, adj + e);
        }
    }
}

proof fn lemma_lex_keyword_bounds(s: Seq<char>, i: int, want: Seq<char>, t: Tok, sofar: Seq<char>)
    requires
        i <= s.len(),
    ensures
        lex_keyword(s, i, want, t, sofar) matches Ok(p) ==> i <= p.1 <= s.len() && p.0 == t,
    decreases want.len(),
{
    if want.len() == 0 {
    } else if i >= s.len() {
    } else if s[i] == want[0] {
        lemma_lex_keyword_bounds(s, i + 1, want.skip(1), t, sofar.push(s[i]));
    }
}

proof fn lemma_lex_string_bounds(s: Seq<char>, i: int, acc: Seq<char>)
    ensures
        lex_string(s, i, acc) matches Ok(p) ==> i < p.1 <= s.len() && p.0 is String,
    decreases s.len() - i, 1int,
{
    if i < 0 || i >= s.len() {
    } else if s[i] == '"' {
    } else if s[i] == '\\' {
        lemma_lex_escape_bounds(s, i + 1, acc);
    } else {
        lemma_lex_string_bounds(s, i + 1, acc.push(s[i]));
    }
}

proof fn lemma_lex_escape_bounds(s: Seq<char>, i: int, acc: Seq<char>)
    ensures
        lex_escape(s, i, acc) matches Ok(p) ==> i < p.1 <= s.len() && p.0 is String,
    decreases s.len() - i, 0int,
{
    if i < 0 || i >= s.len() {
    } else if s[i] == 'u' {
        lemma_lex_unicode_bounds(s, i + 1, acc);
    } else if s[i] == 'b' {
        lemma_lex_string_bounds(s, i + 1, acc.push('\u{8}'));
    } else if s[i] == 'f' {
        lemma_lex_string_bounds(s, i + 1, acc.push('\u{c}'));
    } else if s[i] == 'n' {
        lemma_lex_string_bounds(s, i + 1, acc.push('\n'));
    } else if s[i] == 'r' {
        lemma_lex_string_bounds(s, i + 1, acc.push('\r'));
    } else if s[i] == 't' {
        lemma_lex_string_bounds(s, i + 1, acc.push('\t'));
    } else {
        lemma_lex_string_bounds(s, i + 1, acc.push(s[i]));
    }
}

proof fn lemma_lex_unicode_bounds(s: Seq<char>, i: int, acc: Seq<char>)
    ensures
        lex_unicode(s, i, acc) matches Ok(p) ==> i < p.1 <= s.len() && p.0 is String,
    decreases s.len() - i, 0int,
{
    if i < 0 || !hex4_ok(s, i) {
    } else {
        let cp = hex4_val(s, i);
        if 0xD800 <= cp < 0xDC00 {
            if i + 6 <= s.len() && s[i + 4] == '\\' && s[i + 5] == 'u' && hex4_ok(s, i + 6) {
                let lo = hex4_val(s, i + 6);
                if 0xDC00 <= lo < 0xE000 {
                    let scalar = 0x10000 + (cp - 0xD800) * 0x400 + (lo - 0xDC00);
                    lemma_lex_string_bounds(s, i + 10, acc.push((scalar as u32) as char));
                }
            }
        } else if 0xDC00 <= cp < 0xE000 {
        } else {
            lemma_lex_string_bounds(s, i + 4, acc.push(cp as char));
        }
    }
}

proof fn lemma_lex_int_bounds(s: Seq<char>, i: int, neg: bool, m: u64, adj: i64, seen: bool)
    requires
        0 <= i <= s.len(),
    ensures
        lex_int(s, i, neg, m, adj, seen) matches Ok(p) ==> i <= p.1 <= s.len() && (p.0 matches Tok::Number(n)
            && n.norm()),
    decreases s.len() - i, 3int,
{
    if i >= s.len() || !is_num_char(s[i]) {
        lemma_num_finish_norm(neg, m, adj, 0, seen, i);
    } else if is_digit(s[i]) {
        if m <= MANT_FIT {
            lemma_lex_int_bounds(s, i + 1, neg, mant_step(m, s[i]), adj, true);
        } else {
            lemma_lex_int_bounds(s, i + 1, neg, m, if adj < EXP_SAT {
                (adj + 1) as i64
            } else {
                adj
            }, true);
        }
    } else if s[i] == '.' {
        lemma_lex_frac_bounds(s, i + 1, neg, m, adj, seen);
    } else if s[i] == 'e' || s[i] == 'E' {
        lemma_lex_exp_sign_bounds(s, i + 1, neg, m, adj, seen);
    }
}

proof fn lemma_lex_frac_bounds(s: Seq<char>, i: int, neg: bool, m: u64, adj: i64, seen: bool)
    requires
        0 <= i <= s.len(),
    ensures
        lex_frac(s, i, neg, m, adj, seen) matches Ok(p) ==> i <= p.1 <= s.len() && (p.0 matches Tok::Number(n)
            && n.norm()),
    decreases s.len() - i, 2int,
{
    if i >= s.len() || !is_num_char(s[i]) {
        lemma_num_finish_norm(neg, m, adj, 0, seen, i);
    } else if is_digit(s[i]) {
        if m <= MANT_FIT {
            lemma_lex_frac_bounds(s, i + 1, neg, mant_step(m, s[i]), if adj > -EXP_SAT {
                (adj - 1) as i64
            } else {
                adj
            }, true);
        } else {
            lemma_lex_frac_bounds(s, i + 1, neg, m, adj, true);
        }
    } else if s[i] == 'e' || s[i] == 'E' {
        lemma_lex_exp_sign_bounds(s, i + 1, neg, m, adj, seen);
    }
}

proof fn lemma_lex_exp_sign_bounds(s: Seq<char>, i: int, neg: bool, m: u64, adj: i64, seen: bool)
    requires
        0 <= i <= s.len(),
    ensures
        lex_exp_sign(s, i, neg, m, adj, seen) matches Ok(p) ==> i <= p.1 <= s.len() && (p.0 matches Tok::Number(n)
            && n.norm()),
    decreases s.len() - i, 1int,
{
    if i >= s.len() || !is_num_char(s[i]) {
    } else if s[i] == '+' || s[i] == '-' {
        lemma_lex_exp_bounds(s, i + 1, neg, m, adj, seen, s[i] == '-', 0, false);
    } else if is_digit(s[i]) {
        lemma_lex_exp_bounds(s, i, neg, m, adj, seen, false, 0, false);
    }
}

proof fn lemma_lex_exp_bounds(
    s: Seq<char>,
    i: int,
    neg: bool,
    m: u64,
    adj: i64,
    seen: bool,
    esign: bool,
    e: i64,
    eany: bool,
)
    requires
        0 <= i <= s.len(),
    ensures
        lex_exp(s, i, neg, m, adj, seen, esign, e, eany) matches Ok(p) ==> i <= p.1 <= s.len() && (
        p.0 matches Tok::Number(n) && n.norm()),
    decreases s.len() - i, 0int,
{
    if i >= s.len() || !is_num_char(s[i]) {
        lemma_num_finish_norm(neg, m, adj, if esign { -e as int } else { e as int }, seen && eany, i);
    } else if is_digit(s[i]) {
        lemma_lex_exp_bounds(s, i + 1, neg, m, adj, seen, esign, if e < EXP_SAT {
            (e * 10 + digit_val(s[i])) as i64
        } else {
            e
        }, true);
    }
}

/// A token, when there is one, ends past where it began and within the
/// text, and a number token is in normal form.
pub broadcast proof fn lemma_lex_bounds(s: Seq<char>, i: int)
    ensures
        (#[trigger] lex(s, i)) matches Ok(p) ==> i < p.1 <= s.len() && (p.0 matches Tok::Number(n)
            ==> n.norm()),
    decreases s.len() - i,
{
    if i < 0 || i >= s.len() {
    } else if is_ws(s[i]) {
        lemma_lex_bounds(s, i + 1);
    } else if s[i] == 'n' {
        lemma_lex_keyword_bounds(s, i + 1, "ull"@, Tok::Null, "n"@);
    } else if s[i] == 't' {
        lemma_lex_keyword_bounds(s, i + 1, "rue"@, Tok::Boolen(true), "t"@);
    } else if s[i] == 'f' {
        lemma_lex_keyword_bounds(s, i + 1, "alse"@, Tok::Boolen(false), "f"@);
    } else if s[i] == '"' {
        lemma_lex_string_bounds(s, i + 1, Seq::empty());
    } else if s[i] == '-' {
        lemma_lex_int_bounds(s, i + 1, true, 0, 0, false);
    } else if is_digit(s[i]) {
        lemma_lex_int_bounds(s, i + 1, false, mant_step(0, s[i]), 0, true);
        assert(lex_number(s, i) == lex_int(s, i, false, 0, 0, false));
        assert(lex_int(s, i, false, 0, 0, false) == lex_int(
            s,
            i + 1,
            false,
            mant_step(0, s[i]),
            0,
            true,
        ));
    }
}

/// Builds the token a finished number lexeme denotes: the normal form of
/// `(-1)^neg * m * 10^(adj + e)`, or `InvalidNumber` when no digit was seen
/// or the exponent leaves the supported range.
fn finish_number(neg: bool, m: u64, adj: i64, e: i64, seen: bool) -> (r: JsonResult<Token>)
    requires
        -EXP_SAT <= adj <= EXP_SAT,
        -(EXP_SAT * 10 + 9) <= e <= EXP_SAT * 10 + 9,
    ensures
        ({
            let nf = num_finish(neg, m, adj, e as int, seen, 0);
            match r {
                Ok(tok) => nf matches Ok(p) && p.0 == tok@,
                Err(err) => nf matches Err(em) && err@ == em,
            }
        }),
{
    if !seen {
        return Err(JsonError::InvalidNumber);
    }
    if m == 0 {
        return Ok(Token::Number(JsonNumber { neg, mantissa: 0, exp: 0 }));
    }
    let mut mm = m;
    let mut t: i64 = adj + e;
    proof {
        lemma_strip_zeros(m as nat, t as int);
        lemma_strip_zeros_u64(m as nat, t as int);
    }
    while mm % 10 == 0
        invariant
            0 < mm <= m,
            -(EXP_SAT * 11 + 9) <= adj + e <= EXP_SAT * 11 + 9,
            adj + e <= t <= adj + e + 19,
            strip_zeros(m as nat, (adj + e) as int) == strip_zeros(mm as nat, t as int),
            strip_zeros(mm as nat, t as int).1 <= adj + e + 19,
        decreases mm,
    {
        mm = mm / 10;
        t = t + 1;
        proof {
            lemma_strip_zeros(mm as nat, t as int);
        }
    }
    if -1000 <= t && t <= 1000 {
        Ok(Token::Number(JsonNumber { neg, mantissa: mm, exp: t as i32 }))
    } else {
        Err(JsonError::InvalidNumber)
    }
}

/// The scanner over one piece of JSON text: the text and a cursor into it.
pub struct Tokenizer<'a> {
    source: &'a str,
    pos: usize,
    len: usize,
}

impl<'a> Tokenizer<'a> {
    /// The characters being scanned.
    pub closed spec fn text(self) -> Seq<char> {
        self.source@
    }

    /// How many characters were consumed so far.
    pub closed spec fn cursor(self) -> int {
        self.pos as int
    }

    pub closed spec fn wf(self) -> bool {
        self.len as nat == self.source@.len() && self.pos <= self.len
    }

    pub fn new(source: &'a str) -> (r: Tokenizer<'a>)
        ensures
            r.wf(),
            r.text() == source@,
            r.cursor() == 0,
    {
        let len = source.unicode_len();
        Tokenizer { source, pos: 0, len }
    }

    /// A well-formed scanner's cursor lies within its text.
    pub proof fn lemma_wf_bounds(self)
        requires
            self.wf(),
        ensures
            0 <= self.cursor() <= self.text().len(),
    {
    }

    /// The next token of the text, or the error that the text forces there;
    /// on success the cursor stands just past the token.
    pub fn next(&mut self) -> (r: JsonResult<Token>)
        requires
            old(self).wf(),
        ensures
            final(self).wf(),
            final(self).text() == old(self).text(),
            match lex(old(self).text(), old(self).cursor()) {
                Ok((t, j)) => r matches Ok(tok) && tok@ == t && final(self).cursor() == j,
                Err(e) => r matches Err(err) && err@ == e,
            },
    {
        loop
            invariant
                self.wf(),
                self.text() == old(self).text(),
                lex(self.text(), self.cursor()) == lex(old(self).text(), old(self).cursor()),
            decreases self.len - self.pos,
        {
            if self.pos >= self.len {
                return Err(JsonError::UnexpectedEndOfJson);
            }
            let c = self.source.get_char(self.pos);
            let cu = c as u32;
            if c == ' ' || c == '\t' || c == '\n' || c == '\r' {
                self.pos = self.pos + 1;
            } else if c == ',' {
                self.pos = self.pos + 1;
                return Ok(Token::Comma);
            } else if c == ':' {
                self.pos = self.pos + 1;
                return Ok(Token::Colon);
            } else if c == '[' {
                self.pos = self.pos + 1;
                return Ok(Token::BracketOn);
            } else if c == ']' {
                self.pos = self.pos + 1;
                return Ok(Token::BracketOff);
            } else if c == '{' {
                self.pos = self.pos + 1;
                return Ok(Token::BraceOn);
            } else if c == '}' {
                self.pos = self.pos + 1;
                return Ok(Token::BraceOff);
            } else if c == 'n' {
                self.pos = self.pos + 1;
                return self.expect_str("ull", Token::Null, String::from_str("n"));
            } else if c == 't' {
                self.pos = self.pos + 1;
                return self.expect_str("rue", Token::Boolen(true), String::from_str("t"));
            } else if c == 'f' {
                self.pos = self.pos + 1;
                return self.expect_str("alse", Token::Boolen(false), String::from_str("f"));
            } else if c == '"' {
                self.pos = self.pos + 1;
                return self.read_string();
            } else if c == '-' || (48 <= cu && cu <= 57) {
                return self.read_number();
            } else {
                return Err(JsonError::UnexpectedCharacter(c));
            }
        }
    }

    /// Reads the rest of a keyword, `sofar` being the part already consumed;
    /// hands back `token` when the whole keyword matches.
    fn expect_str(&mut self, want: &str, token: Token, sofar: String) -> (r: JsonResult<Token>)
        requires
            old(self).wf(),
        ensures
            final(self).wf(),
            final(self).text() == old(self).text(),
            match lex_keyword(
                old(self).text(),
                old(self).cursor(),
                want@,
                token@,
                sofar@,
            ) {
                Ok((t, j)) => r matches Ok(tok) && tok@ == t && final(self).cursor() == j,
                Err(e) => r matches Err(err) && err@ == e,
            },
    {
        let wlen = want.unicode_len();
        let mut k: usize = 0;
        let mut acc = sofar;
        proof {
            assert(want@.skip(0) =~= want@);
        }
        while k < wlen
            invariant
                self.wf(),
                self.text() == old(self).text(),
                k <= wlen,
                wlen as nat == want@.len(),
                lex_keyword(old(self).text(), old(self).cursor(), want@, token@, sofar@)
                    == lex_keyword(self.text(), self.cursor(), want@.skip(k as int), token@, acc@),
            decreases wlen - k,
        {
            proof {
                assert(want@.skip(k as int).len() > 0);
            }
            if self.pos >= self.len {
                return Err(JsonError::UnexpectedEndOfJson);
            }
            let c = self.source.get_char(self.pos);
            let w = want.get_char(k);
            proof {
                assert(want@.skip(k as int)[0] == want@[k as int]);
            }
            if c == w {
                self.pos = self.pos + 1;
                acc.push(c);
                k = k + 1;
                proof {
                    assert(want@.skip(k as int - 1).skip(1) =~= want@.skip(k as int));
                }
            } else {
                acc.push(c);
                return Err(JsonError::UnexpectedToken(acc));
            }
        }
        Ok(token)
    }

    /// Reads the body of a string literal, the opening quote already
    /// consumed.
    fn read_string(&mut self) -> (r: JsonResult<Token>)
        requires
            old(self).wf(),
        ensures
            final(self).wf(),
            final(self).text() == old(self).text(),
            match lex_string(old(self).text(), old(self).cursor(), Seq::empty()) {
                Ok((t, j)) => r matches Ok(tok) && tok@ == t && final(self).cursor() == j,
                Err(e) => r matches Err(err) && err@ == e,
            },
    {
        let mut buf = String::new();
        loop
            invariant
                self.wf(),
                self.text() == old(self).text(),
                lex_string(old(self).text(), old(self).cursor(), Seq::empty()) == lex_string(
                    self.text(),
                    self.cursor(),
                    buf@,
                ),
            decreases self.len - self.pos,
        {
            if self.pos >= self.len {
                return Err(JsonError::UnexpectedEndOfJson);
            }
            let c = self.source.get_char(self.pos);
            if c == '"' {
                self.pos = self.pos + 1;
                return Ok(Token::String(buf));
            } else if c == '\\' {
                self.pos = self.pos + 1;
                match self.read_escaped_chr(&mut buf) {
                    Ok(()) => (),
                    Err(e) => {
                        return Err(e);
                    },
                }
            } else {
                self.pos = self.pos + 1;
                buf.push(c);
            }
        }
    }

    /// Reads one escape sequence, the backslash already consumed, and
    /// appends the character it stands for.
    fn read_escaped_chr(&mut self, buf: &mut String) -> (r: JsonResult<()>)
        requires
            old(self).wf(),
        ensures
            final(self).wf(),
            final(self).text() == old(self).text(),
            match r {
                Ok(()) => lex_escape(old(self).text(), old(self).cursor(), old(buf)@)
                    == lex_string(final(self).text(), final(self).cursor(), final(buf)@) && final(self).cursor() > old(
                    self,
                ).cursor(),
                Err(err) => lex_escape(old(self).text(), old(self).cursor(), old(buf)@) == Err::<(Tok, int), ErrModel>(err@),
            },
    {
        if self.pos >= self.len {
            return Err(JsonError::UnexpectedEndOfJson);
        }
        let c = self.source.get_char(self.pos);
        self.pos = self.pos + 1;
        if c == 'b' {
            buf.push('\u{8}');
        } else if c == 'f' {
            buf.push('\u{c}');
        } else if c == 'n' {
            buf.push('\n');
        } else if c == 'r' {
            buf.push('\r');
        } else if c == 't' {
            buf.push('\t');
        } else if c == 'u' {
            return self.read_codepoint(buf);
        } else {
            buf.push(c);
        }
        Ok(())
    }

    /// Reads a number lexeme whose first character (a digit or a minus
    /// sign) stands at the cursor.
    fn read_number(&mut self) -> (r: JsonResult<Token>)
        requires
            old(self).wf(),
            old(self).cursor() < old(self).text().len(),
        ensures
            final(self).wf(),
            final(self).text() == old(self).text(),
            match lex_number(old(self).text(), old(self).cursor()) {
                Ok((t, j)) => r matches Ok(tok) && tok@ == t && final(self).cursor() == j,
                Err(e) => r matches Err(err) && err@ == e,
            },
    {
        let c = self.source.get_char(self.pos);
        if c == '-' {
            self.pos = self.pos + 1;
            self.read_num_int(true, 0, 0, false)
        } else {
            self.read_num_int(false, 0, 0, false)
        }
    }

    /// Scans the integer digits of a number.
    fn read_num_int(&mut self, neg: bool, m0: u64, adj0: i64, seen0: bool) -> (r: JsonResult<
        Token,
    >)
        requires
            old(self).wf(),
            -EXP_SAT <= adj0 <= EXP_SAT,
        ensures
            final(self).wf(),
            final(self).text() == old(self).text(),
            match lex_int(old(self).text(), old(self).cursor(), neg, m0, adj0, seen0) {
                Ok((t, j)) => r matches Ok(tok) && tok@ == t && final(self).cursor() == j,
                Err(e) => r matches Err(err) && err@ == e,
            },
        decreases old(self).text().len() - old(self).cursor(), 3int,
    {
        let mut m = m0;
        let mut adj = adj0;
        let mut seen = seen0;
        loop
            invariant
                self.wf(),
                self.text() == old(self).text(),
                -EXP_SAT <= adj <= EXP_SAT,
                lex_int(old(self).text(), old(self).cursor(), neg, m0, adj0, seen0) == lex_int(
                    self.text(),
                    self.cursor(),
                    neg,
                    m,
                    adj,
                    seen,
                ),
                self.cursor() >= old(self).cursor(),
            decreases self.len - self.pos,
        {
            if self.pos >= self.len {
                return finish_number(neg, m, adj, 0, seen);
            }
            let c = self.source.get_char(self.pos);
            let cu = c as u32;
            if 48 <= cu && cu <= 57 {
                if m <= MANT_FIT {
                    m = m * 10 + ((cu - 48) as u64);
                } else if adj < EXP_SAT {
                    adj = adj + 1;
                }
                seen = true;
                self.pos = self.pos + 1;
            } else if c == '.' {
                self.pos = self.pos + 1;
                return self.read_num_frac(neg, m, adj, seen);
            } else if c == 'e' || c == 'E' {
                self.pos = self.pos + 1;
                return self.read_num_exp_sign(neg, m, adj, seen);
            } else if c == '+' || c == '-' {
                return Err(JsonError::InvalidNumber);
            } else {
                return finish_number(neg, m, adj, 0, seen);
            }
        }
    }

    /// Scans the digits after the decimal point.
    fn read_num_frac(&mut self, neg: bool, m0: u64, adj0: i64, seen0: bool) -> (r: JsonResult<
        Token,
    >)
        requires
            old(self).wf(),
            -EXP_SAT <= adj0 <= EXP_SAT,
        ensures
            final(self).wf(),
            final(self).text() == old(self).text(),
            match lex_frac(old(self).text(), old(self).cursor(), neg, m0, adj0, seen0) {
                Ok((t, j)) => r matches Ok(tok) && tok@ == t && final(self).cursor() == j,
                Err(e) => r matches Err(err) && err@ == e,
            },
        decreases old(self).text().len() - old(self).cursor(), 2int,
    {
        let mut m = m0;
        let mut adj = adj0;
        let mut seen = seen0;
        loop
            invariant
                self.wf(),
                self.text() == old(self).text(),
                -EXP_SAT <= adj <= EXP_SAT,
                lex_frac(old(self).text(), old(self).cursor(), neg, m0, adj0, seen0) == lex_frac(
                    self.text(),
                    self.cursor(),
                    neg,
                    m,
                    adj,
                    seen,
                ),
                self.cursor() >= old(self).cursor(),
            decreases self.len - self.pos,
        {
            if self.pos >= self.len {
                return finish_number(neg, m, adj, 0, seen);
            }
            let c = self.source.get_char(self.pos);
            let cu = c as u32;
            if 48 <= cu && cu <= 57 {
                if m <= MANT_FIT {
                    m = m * 10 + ((cu - 48) as u64);
                    if adj > -EXP_SAT {
                        adj = adj - 1;
                    }
                }
                seen = true;
                self.pos = self.pos + 1;
            } else if c == 'e' || c == 'E' {
                self.pos = self.pos + 1;
                return self.read_num_exp_sign(neg, m, adj, seen);
            } else if c == '.' || c == '+' || c == '-' {
                return Err(JsonError::InvalidNumber);
            } else {
                return finish_number(neg, m, adj, 0, seen);
            }
        }
    }

    /// Just past the exponent marker: an optional sign, then the digits.
    fn read_num_exp_sign(&mut self, neg: bool, m0: u64, adj0: i64, seen0: bool) -> (r: JsonResult<
        Token,
    >)
        requires
            old(self).wf(),
            -EXP_SAT <= adj0 <= EXP_SAT,
        ensures
            final(self).wf(),
            final(self).text() == old(self).text(),
            match lex_exp_sign(old(self).text(), old(self).cursor(), neg, m0, adj0, seen0) {
                Ok((t, j)) => r matches Ok(tok) && tok@ == t && final(self).cursor() == j,
                Err(e) => r matches Err(err) && err@ == e,
            },
        decreases old(self).text().len() - old(self).cursor(), 1int,
    {
        if self.pos >= self.len {
            return Err(JsonError::InvalidNumber);
        }
        let c = self.source.get_char(self.pos);
        let cu = c as u32;
        if c == '+' {
            self.pos = self.pos + 1;
            self.read_num_exp(neg, m0, adj0, seen0, false)
        } else if c == '-' {
            self.pos = self.pos + 1;
            self.read_num_exp(neg, m0, adj0, seen0, true)
        } else if 48 <= cu && cu <= 57 {
            self.read_num_exp(neg, m0, adj0, seen0, false)
        } else {
            Err(JsonError::InvalidNumber)
        }
    }

    /// Scans the exponent digits.
    fn read_num_exp(
        &mut self,
        neg: bool,
        m0: u64,
        adj0: i64,
        seen0: bool,
        esign: bool,
    ) -> (r: JsonResult<Token>)
        requires
            old(self).wf(),
            -EXP_SAT <= adj0 <= EXP_SAT,
        ensures
            final(self).wf(),
            final(self).text() == old(self).text(),
            match lex_exp(old(self).text(), old(self).cursor(), neg, m0, adj0, seen0, esign, 0, false) {
                Ok((t, j)) => r matches Ok(tok) && tok@ == t && final(self).cursor() == j,
                Err(e) => r matches Err(err) && err@ == e,
            },
        decreases old(self).text().len() - old(self).cursor(), 0int,
    {
        let mut e: i64 = 0;
        let mut eany = false;
        loop
            invariant
                self.wf(),
                self.text() == old(self).text(),
                0 <= e <= EXP_SAT * 10 + 9,
                -EXP_SAT <= adj0 <= EXP_SAT,
                lex_exp(old(self).text(), old(self).cursor(), neg, m0, adj0, seen0, esign, 0, false)
                    == lex_exp(self.text(), self.cursor(), neg, m0, adj0, seen0, esign, e, eany),
            decreases self.len - self.pos,
        {
            if self.pos >= self.len {
                return finish_number(neg, m0, adj0, if esign { -e } else { e }, seen0 && eany);
            }
            let c = self.source.get_char(self.pos);
            let cu = c as u32;
            if 48 <= cu && cu <= 57 {
                if e < EXP_SAT {
                    e = e * 10 + ((cu - 48) as i64);
                }
                eany = true;
                self.pos = self.pos + 1;
            } else if c == '.' || c == '+' || c == '-' || c == 'e' || c == 'E' {
                return Err(JsonError::InvalidNumber);
            } else {
                return finish_number(neg, m0, adj0, if esign { -e } else { e }, seen0 && eany);
            }
        }
    }

    /// Reads one hexadecimal digit.
    fn read_hex(&mut self) -> (r: JsonResult<u32>)
        requires
            old(self).wf(),
        ensures
            final(self).wf(),
            final(self).text() == old(self).text(),
            match r {
                Ok(v) => old(self).cursor() < old(self).text().len() && is_hex(
                    old(self).text()[old(self).cursor()],
                ) && v == hex_val(old(self).text()[old(self).cursor()]) && v < 16
                    && final(self).cursor() == old(self).cursor() + 1,
                Err(err) => !(old(self).cursor() < old(self).text().len() && is_hex(
                    old(self).text()[old(self).cursor()],
                )) && err@ == (if old(self).cursor() >= old(self).text().len() {
                    ErrModel::UnexpectedEndOfJson
                } else {
                    ErrModel::UnexpectedCharacter(old(self).text()[old(self).cursor()])
                }) && final(self).cursor() == old(self).cursor(),
            },
    {
        if self.pos >= self.len {
            return Err(JsonError::UnexpectedEndOfJson);
        }
        let c = self.source.get_char(self.pos);
        let cu = c as u32;
        if 48 <= cu && cu <= 57 {
            self.pos = self.pos + 1;
            Ok(cu - 48)
        } else if 97 <= cu && cu <= 102 {
            self.pos = self.pos + 1;
            Ok(cu - 87)
        } else if 65 <= cu && cu <= 70 {
            self.pos = self.pos + 1;
            Ok(cu - 55)
        } else {
            Err(JsonError::UnexpectedCharacter(c))
        }
    }

    /// Reads four hexadecimal digits and yields their value.
    fn read_hex4(&mut self) -> (r: JsonResult<u32>)
        requires
            old(self).wf(),
        ensures
            final(self).wf(),
            final(self).text() == old(self).text(),
            match r {
                Ok(v) => hex4_ok(old(self).text(), old(self).cursor()) && v == hex4_val(
                    old(self).text(),
                    old(self).cursor(),
                ) && v < 0x10000 && final(self).cursor() == old(self).cursor() + 4,
                Err(err) => !hex4_ok(old(self).text(), old(self).cursor()) && err@ == hex4_err(
                    old(self).text(),
                    old(self).cursor(),
                ),
            },
    {
        let a = match self.read_hex() {
            Ok(v) => v,
            Err(e) => {
                return Err(e);
            },
        };
        let b = match self.read_hex() {
            Ok(v) => v,
            Err(e) => {
                return Err(e);
            },
        };
        let c = match self.read_hex() {
            Ok(v) => v,
            Err(e) => {
                return Err(e);
            },
        };
        let d = match self.read_hex() {
            Ok(v) => v,
            Err(e) => {
                return Err(e);
            },
        };
        Ok(((a * 16 + b) * 16 + c) * 16 + d)
    }

    /// Reads a `\uXXXX` escape, the `\u` already consumed, and appends the
    /// scalar value it (or the surrogate pair it begins) stands for.
    fn read_codepoint(&mut self, buf: &mut String) -> (r: JsonResult<()>)
        requires
            old(self).wf(),
        ensures
            final(self).wf(),
            final(self).text() == old(self).text(),
            match r {
                Ok(()) => lex_unicode(old(self).text(), old(self).cursor(), old(buf)@)
                    == lex_string(final(self).text(), final(self).cursor(), final(buf)@) && final(self).cursor() > old(
                    self,
                ).cursor(),
                Err(err) => lex_unicode(old(self).text(), old(self).cursor(), old(buf)@) == Err::<(Tok, int), ErrModel>(err@),
            },
    {
        let cp = match self.read_hex4() {
            Ok(v) => v,
            Err(e) => {
                return Err(e);
            },
        };
        if 0xD800 <= cp && cp < 0xDC00 {
            if self.pos < self.len && self.pos + 1 < self.len && self.source.get_char(self.pos) == '\\'
                && self.source.get_char(self.pos + 1) == 'u' {
                self.pos = self.pos + 2;
                let lo = match self.read_hex4() {
                    Ok(v) => v,
                    Err(e) => {
                        return Err(e);
                    },
                };
                if 0xDC00 <= lo && lo < 0xE000 {
                    let scalar = 0x10000 + (cp - 0xD800) * 0x400 + (lo - 0xDC00);
                    match char::from_u32(scalar) {
                        Some(ch) => {
                            proof {
                                vstd::utf8::char_u32_cast(ch, scalar);
                            }
                            buf.push(ch);
                            Ok(())
                        },
                        None => Err(JsonError::ParsingFailed(
                            String::from_str("lone surrogate in unicode escape"),
                        )),
                    }
                } else {
                    Err(JsonError::ParsingFailed(
                        String::from_str("lone surrogate in unicode escape"),
                    ))
                }
            } else {
                Err(JsonError::ParsingFailed(
                    String::from_str("lone surrogate in unicode escape"),
                ))
            }
        } else if 0xDC00 <= cp && cp < 0xE000 {
            Err(JsonError::ParsingFailed(String::from_str("lone surrogate in unicode escape")))
        } else {
            match char::from_u32(cp) {
                Some(ch) => {
                    proof {
                        vstd::utf8::char_u32_cast(ch, cp);
                    }
                    buf.push(ch);
                    Ok(())
                },
                None => Err(JsonError::ParsingFailed(
                    String::from_str("lone surrogate in unicode escape"),
                )),
            }
        }
    }
}

} // verus!
