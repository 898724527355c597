//! The signature byte model and the text codec.
//!
//! A signature position is either a literal byte (`Match`) or a `Wildcard`
//! that matches any byte. Two textual notations exist:
//! - generic: whitespace-separated tokens, `??` for a wildcard or two upper
//!   case hex digits for a literal, each followed by a space;
//! - escaped: concatenated `\xHH` tokens with no separator, where `\x2A` is
//!   reserved for the wildcard.

use vstd::prelude::*;

verus! {

/// One position of a signature: a wildcard, or a byte that must match.
#[derive(Copy, Clone, Debug, PartialEq, Eq, Structural)]
pub enum SigByte {
    Wildcard,
    Match(u8),
}

/// The cause of a hex token that failed to parse.
#[derive(Copy, Clone, Debug, PartialEq, Eq, Structural)]
pub enum ParseCause {
    /// A character that is not a hexadecimal digit.
    InvalidDigit,
    /// The token's value does not fit in one byte.
    Overflow,
}

/// Everything that can go wrong while building or parsing a signature.
#[derive(Clone, Debug)]
pub enum SigError {
    /// The disassembly service reported no length, or a zero length.
    InvalidInstruction,
    /// The qualifying constants cover the whole instruction or more.
    OversizedWildcard,
    /// Zero, or more than one, basic block owns the address.
    AddressNotInFunction,
    /// Growing the signature would cross the function's end.
    FuncLimitExceeded,
    /// The incremental generator's safety cap was hit.
    IterLimitExceeded,
    /// A token of the textual notation could not be parsed.
    ParseError { token: String, cause: ParseCause },
}

impl SigError {
    /// A human-readable description of the error; never empty, and for a
    /// parse error it carries the offending token.
    pub fn message(&self) -> (r: String)
        ensures
            r@.len() > 0,
            self matches SigError::ParseError { token, cause } ==> exists|i: int|
                0 <= i && i + token@.len() <= r@.len() && #[trigger] r@.subrange(
                    i,
                    i + token@.len(),
                ) == token@,
    {
        match self {
            SigError::InvalidInstruction => {
                proof {
                    reveal_strlit("Invalid instruction size");
                }
                "Invalid instruction size".to_owned()
            },
            SigError::OversizedWildcard => {
                proof {
                    reveal_strlit("Invalid instruction const parameters: wildcard bytes cover the whole instruction");
                }
                "Invalid instruction const parameters: wildcard bytes cover the whole instruction".to_owned()
            },
            SigError::AddressNotInFunction => {
                proof {
                    reveal_strlit("Address is not within exactly one function block");
                }
                "Address is not within exactly one function block".to_owned()
            },
            SigError::FuncLimitExceeded => {
                proof {
                    reveal_strlit("Not enough unique bytes in the remainder of the subroutine");
                }
                "Not enough unique bytes in the remainder of the subroutine".to_owned()
            },
            SigError::IterLimitExceeded => {
                proof {
                    reveal_strlit("Hit iteration limit");
                }
                "Hit iteration limit".to_owned()
            },
            SigError::ParseError { token, cause } => {
                proof {
                    reveal_strlit("Failed to parse ");
                }
                let mut s = "Failed to parse ".to_owned();
                let ghost prefix_len = s@.len() as int;
                s.append(token.as_str());
                proof {
                    assert(s@.subrange(prefix_len, prefix_len + token@.len()) =~= token@);
                }
                let ghost with_token = s@;
                match cause {
                    ParseCause::InvalidDigit => s.append(": invalid digit found in string"),
                    ParseCause::Overflow => s.append(": number too large to fit in target type"),
                }
                proof {
                    assert(s@.subrange(prefix_len, prefix_len + token@.len()) =~= with_token.subrange(
                        prefix_len,
                        prefix_len + token@.len(),
                    ));
                }
                s
            },
        }
    }
}

/// The upper-case hexadecimal digit for a value below sixteen.
pub open spec fn hex_char(d: int) -> char {
    if d == 0 { '0' }
    else if d == 1 { '1' }
    else if d == 2 { '2' }
    else if d == 3 { '3' }
    else if d == 4 { '4' }
    else if d == 5 { '5' }
    else if d == 6 { '6' }
    else if d == 7 { '7' }
    else if d == 8 { '8' }
    else if d == 9 { '9' }
    else if d == 10 { 'A' }
    else if d == 11 { 'B' }
    else if d == 12 { 'C' }
    else if d == 13 { 'D' }
    else if d == 14 { 'E' }
    else { 'F' }
}

/// The two upper-case hex digits of a byte, high digit first.
pub open spec fn hex_pair(v: u8) -> Seq<char> {
    seq![hex_char(v as int / 16), hex_char(v as int % 16)]
}

/// The generic rendering of one signature byte: `"?? "` or `"HH "`.
pub open spec fn spec_generic(b: SigByte) -> Seq<char> {
    match b {
        SigByte::Wildcard => seq!['?', '?', ' '],
        SigByte::Match(v) => hex_pair(v) + seq![' '],
    }
}

/// The escaped rendering of one signature byte: `"\x2A"` or `"\xHH"`.
pub open spec fn spec_escaped(b: SigByte) -> Seq<char> {
    match b {
        SigByte::Wildcard => seq!['\\', 'x', '2', 'A'],
        SigByte::Match(v) => seq!['\\', 'x'] + hex_pair(v),
    }
}

/// The generic rendering of a whole signature, in order.
pub open spec fn spec_render_generic(s: Seq<SigByte>) -> Seq<char>
    decreases s.len(),
{
    if s.len() == 0 {
        Seq::empty()
    } else {
        spec_generic(s[0]) + spec_render_generic(s.drop_first())
    }
}

/// The escaped rendering of a whole signature, in order.
pub open spec fn spec_render_escaped(s: Seq<SigByte>) -> Seq<char>
    decreases s.len(),
{
    if s.len() == 0 {
        Seq::empty()
    } else {
        spec_escaped(s[0]) + spec_render_escaped(s.drop_first())
    }
}

/// A one-character string holding the upper-case hex digit of `d`.
fn hex_str(d: u8) -> (r: &'static str)
    requires
        d < 16,
    ensures
        r@ =~= seq![hex_char(d as int)],
{
    proof {
        reveal_strlit("0"); reveal_strlit("1"); reveal_strlit("2"); reveal_strlit("3");
        reveal_strlit("4"); reveal_strlit("5"); reveal_strlit("6"); reveal_strlit("7");
        reveal_strlit("8"); reveal_strlit("9"); reveal_strlit("A"); reveal_strlit("B");
        reveal_strlit("C"); reveal_strlit("D"); reveal_strlit("E"); reveal_strlit("F");
    }
    match d {
        0 => "0",
        1 => "1",
        2 => "2",
        3 => "3",
        4 => "4",
        5 => "5",
        6 => "6",
        7 => "7",
        8 => "8",
        9 => "9",
        10 => "A",
        11 => "B",
        12 => "C",
        13 => "D",
        14 => "E",
        _ => "F",
    }
}

impl SigByte {
    /// Renders this byte in the generic notation: `"?? "` or `"HH "`.
    pub fn to_str_generic(&self) -> (r: String)
        ensures
            r@ == spec_generic(*self),
    {
        match self {
            SigByte::Wildcard => {
                let r = "?? ".to_owned();
                proof { reveal_strlit("?? "); }
                assert(r@ =~= spec_generic(SigByte::Wildcard));
                r
            },
            SigByte::Match(v) => {
                let mut r = String::from_str(hex_str(*v / 16));
                r.append(hex_str(*v % 16));
                r.append(" ");
                proof { reveal_strlit(" "); }
                assert(r@ =~= spec_generic(SigByte::Match(*v)));
                r
            },
        }
    }

    /// Renders this byte in the escaped notation: `"\x2A"` or `"\xHH"`.
    pub fn to_str_sm(&self) -> (r: String)
        ensures
            r@ == spec_escaped(*self),
    {
        match self {
            SigByte::Wildcard => {
                let r = "\\x2A".to_owned();
                proof { reveal_strlit("\\x2A"); }
                assert(r@ =~= spec_escaped(SigByte::Wildcard));
                r
            },
            SigByte::Match(v) => {
                let mut r = String::from_str("\\x");
                r.append(hex_str(*v / 16));
                r.append(hex_str(*v % 16));
                proof { reveal_strlit("\\x"); }
                assert(r@ =~= spec_escaped(SigByte::Match(*v)));
                r
            },
        }
    }
}

/// Renders a whole signature in the generic notation.
pub fn render_signature_generic(sig: &Vec<SigByte>) -> (r: String)
    ensures
        r@ == spec_render_generic(sig@),
{
    let mut r = String::new();
    let mut i: usize = 0;
    while i < sig.len()
        invariant
            i <= sig.len(),
            r@ == spec_render_generic(sig@.take(i as int)),
        decreases sig.len() - i,
    {
        let piece = sig[i].to_str_generic();
        r.append(piece.as_str());
        proof {
            lemma_render_generic_snoc(sig@, i as int);
        }
        i += 1;
    }
    proof {
        assert(sig@.take(sig@.len() as int) =~= sig@);
    }
    r
}

/// Renders a whole signature in the escaped notation.
pub fn render_signature_sm(sig: &Vec<SigByte>) -> (r: String)
    ensures
        r@ == spec_render_escaped(sig@),
{
    let mut r = String::new();
    let mut i: usize = 0;
    while i < sig.len()
        invariant
            i <= sig.len(),
            r@ == spec_render_escaped(sig@.take(i as int)),
        decreases sig.len() - i,
    {
        let piece = sig[i].to_str_sm();
        r.append(piece.as_str());
        proof {
            lemma_render_escaped_snoc(sig@, i as int);
        }
        i += 1;
    }
    proof {
        assert(sig@.take(sig@.len() as int) =~= sig@);
    }
    r
}

/// Appending one byte to a signature appends its generic rendering.
proof fn lemma_render_generic_snoc(s: Seq<SigByte>, i: int)
    requires
        0 <= i < s.len(),
    ensures
        spec_render_generic(s.take(i + 1)) == spec_render_generic(s.take(i)) + spec_generic(s[i]),
    decreases i,
{
    if i == 0 {
        assert(s.take(1).drop_first() =~= s.take(0));
        assert(spec_render_generic(s.take(1)) =~= spec_generic(s[0]) + spec_render_generic(s.take(0)));
        assert(spec_render_generic(s.take(1)) =~= spec_render_generic(s.take(0)) + spec_generic(s[0]));
    } else {
        lemma_render_generic_snoc(s.drop_first(), i - 1);
        assert(s.take(i + 1).drop_first() =~= s.drop_first().take(i));
        assert(s.take(i).drop_first() =~= s.drop_first().take(i - 1));
        assert(s.drop_first()[i - 1] == s[i]);
        assert(spec_render_generic(s.take(i + 1))
            == spec_generic(s[0]) + spec_render_generic(s.drop_first().take(i)));
        assert(spec_render_generic(s.take(i))
            == spec_generic(s[0]) + spec_render_generic(s.drop_first().take(i - 1)));
        assert(spec_render_generic(s.take(i + 1)) =~= spec_render_generic(s.take(i)) + spec_generic(s[i]));
    }
}

/// Appending one byte to a signature appends its escaped rendering.
proof fn lemma_render_escaped_snoc(s: Seq<SigByte>, i: int)
    requires
        0 <= i < s.len(),
    ensures
        spec_render_escaped(s.take(i + 1)) == spec_render_escaped(s.take(i)) + spec_escaped(s[i]),
    decreases i,
{
    if i == 0 {
        assert(s.take(1).drop_first() =~= s.take(0));
        assert(spec_render_escaped(s.take(1)) =~= spec_escaped(s[0]) + spec_render_escaped(s.take(0)));
        assert(spec_render_escaped(s.take(1)) =~= spec_render_escaped(s.take(0)) + spec_escaped(s[0]));
    } else {
        lemma_render_escaped_snoc(s.drop_first(), i - 1);
        assert(s.take(i + 1).drop_first() =~= s.drop_first().take(i));
        assert(s.take(i).drop_first() =~= s.drop_first().take(i - 1));
        assert(s.drop_first()[i - 1] == s[i]);
        assert(spec_render_escaped(s.take(i + 1))
            == spec_escaped(s[0]) + spec_render_escaped(s.drop_first().take(i)));
        assert(spec_render_escaped(s.take(i))
            == spec_escaped(s[0]) + spec_render_escaped(s.drop_first().take(i - 1)));
        assert(spec_render_escaped(s.take(i + 1)) =~= spec_render_escaped(s.take(i)) + spec_escaped(s[i]));
    }
}

} // verus!

verus! {

/// The whitespace that separates tokens of the generic notation.
pub open spec fn is_space(c: char) -> bool {
    c == ' ' || c == '\t' || c == '\n' || c == '\r' || c == '\u{000B}' || c == '\u{000C}'
}

/// Rewrites the escaped notation into the generic one, left to right: each
/// `\x2A` becomes a spaced wildcard token, every other `\x` becomes a space
/// so its two digits stand as a bare hex pair; all other characters pass
/// through.
pub open spec fn normalize(s: Seq<char>) -> Seq<char>
    decreases s.len(),
{
    if s.len() == 0 {
        Seq::empty()
    } else if s.len() >= 4 && s[0] == '\\' && s[1] == 'x' && s[2] == '2' && s[3] == 'A' {
        seq![' ', '?', '?', ' '] + normalize(s.skip(4))
    } else if s.len() >= 2 && s[0] == '\\' && s[1] == 'x' {
        seq![' '] + normalize(s.skip(2))
    } else {
        seq![s[0]] + normalize(s.skip(1))
    }
}

/// Splits on whitespace, accumulating the current token in `cur`: the
/// maximal whitespace-free runs, in order, with nothing for empty runs.
pub open spec fn split_tokens(s: Seq<char>, cur: Seq<char>) -> Seq<Seq<char>>
    decreases s.len(),
{
    if s.len() == 0 {
        if cur.len() == 0 {
            Seq::empty()
        } else {
            seq![cur]
        }
    } else if is_space(s[0]) {
        if cur.len() == 0 {
            split_tokens(s.skip(1), Seq::empty())
        } else {
            seq![cur] + split_tokens(s.skip(1), Seq::empty())
        }
    } else {
        split_tokens(s.skip(1), cur.push(s[0]))
    }
}

/// Whether a character is a hexadecimal digit, either case.
pub open spec fn is_hex_digit(c: char) -> bool {
    (48 <= c as u32 && c as u32 <= 57) || (97 <= c as u32 && c as u32 <= 102) || (65 <= c as u32
        && c as u32 <= 70)
}

/// A hexadecimal digit's value.
pub open spec fn hex_val(c: char) -> int {
    if 48 <= c as u32 && c as u32 <= 57 {
        c as u32 - 48
    } else if 97 <= c as u32 && c as u32 <= 102 {
        c as u32 - 87
    } else {
        c as u32 - 55
    }
}

/// A token that reads as the wildcard: `??` or `?`.
pub open spec fn is_wild_token(t: Seq<char>) -> bool {
    t == seq!['?', '?'] || t == seq!['?']
}

/// Reads a token as a hexadecimal byte, left to right with accumulator
/// `acc`: the first character that is no hex digit fails it, as does a value
/// that no longer fits in one byte.
pub open spec fn hex_token_rec(t: Seq<char>, acc: int) -> Result<u8, ParseCause>
    decreases t.len(),
{
    if t.len() == 0 {
        Ok(acc as u8)
    } else if !is_hex_digit(t[0]) {
        Err(ParseCause::InvalidDigit)
    } else if acc * 16 + hex_val(t[0]) > 255 {
        Err(ParseCause::Overflow)
    } else {
        hex_token_rec(t.skip(1), acc * 16 + hex_val(t[0]))
    }
}

/// What one token parses to: the wildcard, or a literal hex byte.
pub open spec fn parse_token(t: Seq<char>) -> Result<SigByte, ParseCause> {
    if is_wild_token(t) {
        Ok(SigByte::Wildcard)
    } else {
        match hex_token_rec(t, 0) {
            Ok(v) => Ok(SigByte::Match(v)),
            Err(c) => Err(c),
        }
    }
}

/// What a token list parses to: each token in order, or the first failing
/// token with its cause.
pub open spec fn parse_tokens(ts: Seq<Seq<char>>) -> Result<Seq<SigByte>, (Seq<char>, ParseCause)>
    decreases ts.len(),
{
    if ts.len() == 0 {
        Ok(Seq::empty())
    } else {
        match parse_token(ts[0]) {
            Err(c) => Err((ts[0], c)),
            Ok(b) => match parse_tokens(ts.drop_first()) {
                Err(e) => Err(e),
                Ok(rest) => Ok(seq![b] + rest),
            },
        }
    }
}

/// What a whole signature string parses to: normalize the escaped notation
/// away, split on whitespace, parse each token.
pub open spec fn spec_parse(s: Seq<char>) -> Result<Seq<SigByte>, (Seq<char>, ParseCause)> {
    parse_tokens(split_tokens(normalize(s), Seq::empty()))
}

/// Whether an executable parse result agrees with the specification-level
/// one: the same bytes, or a `ParseError` naming the same token and cause.
pub open spec fn parse_res_eq(
    r: Result<Vec<SigByte>, SigError>,
    s: Result<Seq<SigByte>, (Seq<char>, ParseCause)>,
) -> bool {
    match (r, s) {
        (Ok(v), Ok(q)) => v@ == q,
        (Err(SigError::ParseError { token, cause }), Err(p)) => token@ == p.0 && cause == p.1,
        _ => false,
    }
}

/// Glues an already-parsed prefix onto the rest of a parse.
pub open spec fn glue(
    prefix: Seq<SigByte>,
    rest: Result<Seq<SigByte>, (Seq<char>, ParseCause)>,
) -> Result<Seq<SigByte>, (Seq<char>, ParseCause)> {
    match rest {
        Ok(r) => Ok(prefix + r),
        Err(e) => Err(e),
    }
}

/// Relies on String::push: appends exactly the given character.
#[verifier::external_body]
fn push_char(s: &mut String, c: char)
    ensures
        final(s)@ == old(s)@.push(c),
{
    s.push(c);
}

/// Copies a character list into a `String`.
fn string_of_chars(v: &Vec<char>) -> (r: String)
    ensures
        r@ == v@,
{
    let mut r = String::new();
    let mut i: usize = 0;
    while i < v.len()
        invariant
            i <= v@.len(),
            r@ == v@.take(i as int),
        decreases v.len() - i,
    {
        push_char(&mut r, v[i]);
        proof {
            assert(v@.take(i as int).push(v@[i as int]) =~= v@.take(i + 1));
        }
        i += 1;
    }
    proof {
        assert(v@.take(v@.len() as int) =~= v@);
    }
    r
}

/// Whether this character separates tokens.
fn is_space_exec(c: char) -> (r: bool)
    ensures
        r == is_space(c),
{
    c == ' ' || c == '\t' || c == '\n' || c == '\r' || c == '\u{000B}' || c == '\u{000C}'
}

/// Reads one token: the wildcard, or a hexadecimal byte.
fn parse_token_exec(cur: &Vec<char>) -> (r: Result<SigByte, ParseCause>)
    requires
        cur@.len() > 0,
    ensures
        r == parse_token(cur@),
{
    if cur.len() == 2 && cur[0] == '?' && cur[1] == '?' {
        proof {
            assert(cur@ =~= seq!['?', '?']);
        }
        return Ok(SigByte::Wildcard);
    }
    if cur.len() == 1 && cur[0] == '?' {
        proof {
            assert(cur@ =~= seq!['?']);
        }
        return Ok(SigByte::Wildcard);
    }
    proof {
        if cur@ == seq!['?', '?'] {
            assert(cur@.len() == 2 && cur@[0] == '?' && cur@[1] == '?');
        }
        if cur@ == seq!['?'] {
            assert(cur@.len() == 1 && cur@[0] == '?');
        }
        assert(!is_wild_token(cur@));
    }
    let mut acc: u32 = 0;
    let mut j: usize = 0;
    proof {
        assert(cur@.skip(0) =~= cur@);
    }
    while j < cur.len()
        invariant
            j <= cur@.len(),
            acc <= 255,
            !is_wild_token(cur@),
            hex_token_rec(cur@, 0) == hex_token_rec(cur@.skip(j as int), acc as int),
        decreases cur.len() - j,
    {
        let c = cur[j];
        proof {
            assert(cur@.skip(j as int)[0] == cur@[j as int]);
            assert(cur@.skip(j as int).skip(1) =~= cur@.skip(j + 1));
        }
        let u = c as u32;
        let d: u32 = if 48 <= u && u <= 57 {
            u - 48
        } else if 97 <= u && u <= 102 {
            u - 87
        } else if 65 <= u && u <= 70 {
            u - 55
        } else {
            proof {
                assert(!is_hex_digit(c));
                assert(hex_token_rec(cur@.skip(j as int), acc as int) == Err::<u8, ParseCause>(
                    ParseCause::InvalidDigit,
                ));
            }
            return Err(ParseCause::InvalidDigit);
        };
        assert(is_hex_digit(c));
        assert(d as int == hex_val(c));
        let next: u32 = acc * 16 + d;
        if next > 255 {
            proof {
                assert(hex_token_rec(cur@.skip(j as int), acc as int) == Err::<u8, ParseCause>(
                    ParseCause::Overflow,
                ));
            }
            return Err(ParseCause::Overflow);
        }
        acc = next;
        j += 1;
    }
    proof {
        assert(cur@.skip(cur@.len() as int) =~= Seq::<char>::empty());
    }
    Ok(SigByte::Match(acc as u8))
}

/// Parses a signature string, in either notation: tokens separated by
/// whitespace, each the wildcard `??` (or `?`) or a hexadecimal byte, with
/// the escaped `\xHH` notation rewritten into that form first.
///
/// Returns the parsed bytes in order, or a `ParseError` naming the first
/// token that fails together with why it fails.
pub fn parse_signature(string: String) -> (r: Result<Vec<SigByte>, SigError>)
    ensures
        parse_res_eq(r, spec_parse(string@)),
{
    let ghost goal = spec_parse(string@);
    let s = string.as_str();
    let n = s.unicode_len();
    let mut cv: Vec<char> = Vec::new();
    let mut i: usize = 0;
    while i < n
        invariant
            n == string@.len(),
            s@ == string@,
            i <= n,
            cv@ == string@.take(i as int),
        decreases n - i,
    {
        let c = s.get_char(i);
        cv.push(c);
        proof {
            assert(string@.take(i as int).push(string@[i as int]) =~= string@.take(i + 1));
        }
        i += 1;
    }
    proof {
        assert(string@.take(n as int) =~= string@);
    }
    // rewrite the escaped notation into the generic one
    let mut norm: Vec<char> = Vec::new();
    let mut i: usize = 0;
    while i < cv.len()
        invariant
            i <= cv@.len(),
            normalize(cv@) == norm@ + normalize(cv@.skip(i as int)),
        decreases cv.len() - i,
    {
        let ghost rest = cv@.skip(i as int);
        let remaining = cv.len() - i;
        if remaining >= 4 && cv[i] == '\\' && cv[i + 1] == 'x' && cv[i + 2] == '2' && cv[i + 3]
            == 'A' {
            proof {
                assert(rest.len() >= 4 && rest[0] == '\\' && rest[1] == 'x' && rest[2] == '2'
                    && rest[3] == 'A');
                assert(rest.skip(4) =~= cv@.skip(i + 4));
                assert((norm@ + seq![' ', '?', '?', ' ']) + normalize(cv@.skip(i + 4)) =~= norm@ + (
                seq![' ', '?', '?', ' '] + normalize(cv@.skip(i + 4))));
            }
            norm.push(' ');
            norm.push('?');
            norm.push('?');
            norm.push(' ');
            i += 4;
        } else if remaining >= 2 && cv[i] == '\\' && cv[i + 1] == 'x' {
            proof {
                assert(rest.len() >= 2 && rest[0] == '\\' && rest[1] == 'x');
                assert(!(rest.len() >= 4 && rest[0] == '\\' && rest[1] == 'x' && rest[2] == '2'
                    && rest[3] == 'A'));
                assert(rest.skip(2) =~= cv@.skip(i + 2));
                assert((norm@ + seq![' ']) + normalize(cv@.skip(i + 2)) =~= norm@ + (seq![' ']
                    + normalize(cv@.skip(i + 2))));
            }
            norm.push(' ');
            i += 2;
        } else {
            proof {
                assert(rest.len() >= 1 && rest[0] == cv@[i as int]);
                assert(!(rest.len() >= 4 && rest[0] == '\\' && rest[1] == 'x' && rest[2] == '2'
                    && rest[3] == 'A'));
                assert(!(rest.len() >= 2 && rest[0] == '\\' && rest[1] == 'x'));
                assert(rest.skip(1) =~= cv@.skip(i + 1));
                assert((norm@ + seq![cv@[i as int]]) + normalize(cv@.skip(i + 1)) =~= norm@ + (
                seq![cv@[i as int]] + normalize(cv@.skip(i + 1))));
            }
            let c = cv[i];
            norm.push(c);
            i += 1;
        }
    }
    proof {
        assert(cv@.skip(cv@.len() as int) =~= Seq::<char>::empty());
        assert(norm@ + normalize(Seq::<char>::empty()) =~= norm@);
        assert(norm@ == normalize(string@));
    }
    // split on whitespace and parse each token
    let mut sig: Vec<SigByte> = Vec::new();
    let mut cur: Vec<char> = Vec::new();
    let mut i: usize = 0;
    proof {
        assert(norm@.skip(0) =~= norm@);
        let pr = parse_tokens(split_tokens(norm@, Seq::<char>::empty()));
        if pr is Ok {
            assert(Seq::<SigByte>::empty() + pr->Ok_0 =~= pr->Ok_0);
        }
        assert(goal == glue(Seq::<SigByte>::empty(), pr));
    }
    while i < norm.len()
        invariant
            i <= norm@.len(),
            norm@ == normalize(string@),
            goal == spec_parse(string@),
            goal == glue(sig@, parse_tokens(split_tokens(norm@.skip(i as int), cur@))),
        decreases norm.len() - i,
    {
        let ghost rest = norm@.skip(i as int);
        proof {
            assert(rest[0] == norm@[i as int]);
            assert(rest.skip(1) =~= norm@.skip(i + 1));
        }
        let c = norm[i];
        if is_space_exec(c) {
            proof {
                if cur@.len() == 0 {
                    assert(cur@ =~= Seq::<char>::empty());
                }
            }
            if cur.len() > 0 {
                proof {
                    assert(split_tokens(rest, cur@) == seq![cur@] + split_tokens(
                        norm@.skip(i + 1),
                        Seq::<char>::empty(),
                    ));
                    let ts = seq![cur@] + split_tokens(norm@.skip(i + 1), Seq::<char>::empty());
                    assert(ts[0] == cur@);
                    assert(ts.drop_first() =~= split_tokens(norm@.skip(i + 1), Seq::<char>::empty()));
                }
                let parsed = parse_token_exec(&cur);
                match parsed {
                    Ok(b) => {
                        proof {
                            let tail = split_tokens(norm@.skip(i + 1), Seq::<char>::empty());
                            let ts = seq![cur@] + tail;
                            assert(ts.drop_first() =~= tail);
                            assert(parse_tokens(ts) == (match parse_tokens(tail) {
                                Err(e) => Err(e),
                                Ok(rest_sig) => Ok(seq![b] + rest_sig),
                            }));
                            if parse_tokens(tail) is Ok {
                                let rest_sig = parse_tokens(tail)->Ok_0;
                                assert((sig@ + (seq![b] + rest_sig)) =~= ((sig@.push(b)) + rest_sig));
                            }
                        }
                        sig.push(b);
                    },
                    Err(cause) => {
                        let token = string_of_chars(&cur);
                        return Err(SigError::ParseError { token, cause });
                    },
                }
                cur = Vec::new();
            }
            i += 1;
        } else {
            proof {
                assert(split_tokens(rest, cur@) == split_tokens(norm@.skip(i + 1), cur@.push(
                    norm@[i as int],
                )));
            }
            cur.push(c);
            i += 1;
        }
    }
    proof {
        assert(norm@.skip(norm@.len() as int) =~= Seq::<char>::empty());
        assert(parse_tokens(Seq::<Seq<char>>::empty()) == Ok::<Seq<SigByte>, (Seq<char>, ParseCause)>(
            Seq::empty(),
        ));
        if cur@.len() == 0 {
            assert(cur@ =~= Seq::<char>::empty());
            assert(split_tokens(Seq::<char>::empty(), cur@) =~= Seq::<Seq<char>>::empty());
            assert(sig@ + Seq::<SigByte>::empty() =~= sig@);
        }
    }
    if cur.len() > 0 {
        proof {
            assert(split_tokens(Seq::<char>::empty(), cur@) =~= seq![cur@]);
            let ts = seq![cur@];
            assert(ts[0] == cur@);
            assert(ts.drop_first() =~= Seq::<Seq<char>>::empty());
        }
        let parsed = parse_token_exec(&cur);
        match parsed {
            Ok(b) => {
                proof {
                    let ts = seq![cur@];
                    assert(ts.drop_first() =~= Seq::<Seq<char>>::empty());
                    assert(parse_tokens(ts) == Ok::<Seq<SigByte>, (Seq<char>, ParseCause)>(
                        seq![b] + Seq::<SigByte>::empty(),
                    ));
                    assert((sig@ + (seq![b] + Seq::<SigByte>::empty())) =~= sig@.push(b));
                }
                sig.push(b);
            },
            Err(cause) => {
                let token = string_of_chars(&cur);
                return Err(SigError::ParseError { token, cause });
            },
        }
    }
    proof {
        assert(goal == Ok::<Seq<SigByte>, (Seq<char>, ParseCause)>(sig@));
    }
    Ok(sig)
}

} // verus!
