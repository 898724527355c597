//! The codec's round-trip laws: a rendered signature parses back to itself.
//!
//! This holds for the generic notation unconditionally. For the escaped
//! notation one signature byte must be excluded: a literal `Match(0x2A)`
//! renders as `\x2A`, the very token the notation reserves for the wildcard,
//! so it parses back as `Wildcard`.

use vstd::prelude::*;

use crate::sigbyte::{
    hex_char, hex_pair, hex_token_rec, hex_val, is_hex_digit, is_space, is_wild_token, normalize,
    parse_token, parse_tokens, spec_escaped, spec_generic, spec_parse, spec_render_escaped,
    spec_render_generic, split_tokens, SigByte,
};

verus! {

/// An upper-case hex digit is a hex digit with its own value back, and is
/// none of the characters the codec treats specially.
proof fn lemma_hex_char_props(d: int)
    requires
        0 <= d < 16,
    ensures
        is_hex_digit(hex_char(d)),
        hex_val(hex_char(d)) == d,
        hex_char(d) != '\\',
        hex_char(d) != '?',
        !is_space(hex_char(d)),
        (hex_char(d) == '2') <==> (d == 2),
        (hex_char(d) == 'A') <==> (d == 10),
{
}

/// A byte's two hex digits parse back to exactly that byte.
proof fn lemma_parse_hex_pair(v: u8)
    ensures
        parse_token(hex_pair(v)) == Ok::<SigByte, crate::sigbyte::ParseCause>(SigByte::Match(v)),
{
    let hi = v as int / 16;
    let lo = v as int % 16;
    lemma_hex_char_props(hi);
    lemma_hex_char_props(lo);
    let t = hex_pair(v);
    assert(t.len() == 2);
    assert(t != seq!['?', '?']) by {
        if t == seq!['?', '?'] {
            assert(t[0] == '?');
        }
    }
    assert(t != seq!['?']) by {
        if t == seq!['?'] {
            assert(t.len() == 1);
        }
    }
    assert(!is_wild_token(t));
    assert(t.skip(1) =~= seq![hex_char(lo)]);
    assert(seq![hex_char(lo)].skip(1) =~= Seq::<char>::empty());
    assert(hex_token_rec(t, 0) == hex_token_rec(seq![hex_char(lo)], hi));
    assert(hex_token_rec(seq![hex_char(lo)], hi) == hex_token_rec(
        Seq::<char>::empty(),
        hi * 16 + lo,
    ));
    assert(hi * 16 + lo == v as int);
    assert(hex_token_rec(t, 0) == Ok::<u8, crate::sigbyte::ParseCause>(v));
}

/// The wildcard token parses back to the wildcard.
proof fn lemma_parse_wild_token()
    ensures
        parse_token(seq!['?', '?']) == Ok::<SigByte, crate::sigbyte::ParseCause>(SigByte::Wildcard),
{
    assert(is_wild_token(seq!['?', '?']));
}

/// Normalization passes a backslash-free text through unchanged.
proof fn lemma_normalize_id(s: Seq<char>)
    requires
        forall|i: int| 0 <= i < s.len() ==> s[i] != '\\',
    ensures
        normalize(s) == s,
    decreases s.len(),
{
    if s.len() > 0 {
        lemma_normalize_id(s.skip(1));
        assert(seq![s[0]] + s.skip(1) =~= s);
    }
}

/// A generically rendered signature holds no backslash.
proof fn lemma_render_generic_no_bs(s: Seq<SigByte>)
    ensures
        forall|i: int| 0 <= i < spec_render_generic(s).len()
            ==> #[trigger] spec_render_generic(s)[i] != '\\',
    decreases s.len(),
{
    if s.len() > 0 {
        lemma_render_generic_no_bs(s.drop_first());
        let piece = spec_generic(s[0]);
        assert forall|i: int| 0 <= i < piece.len() implies piece[i] != '\\' by {
            match s[0] {
                SigByte::Wildcard => {},
                SigByte::Match(v) => {
                    lemma_hex_char_props(v as int / 16);
                    lemma_hex_char_props(v as int % 16);
                    assert(piece[0] == hex_char(v as int / 16));
                    assert(piece[1] == hex_char(v as int % 16));
                    assert(piece[2] == ' ');
                },
            }
        }
        assert forall|i: int| 0 <= i < spec_render_generic(s).len()
            implies #[trigger] spec_render_generic(s)[i] != '\\' by {
            if i < piece.len() {
                assert(spec_render_generic(s)[i] == piece[i]);
            } else {
                assert(spec_render_generic(s)[i] == spec_render_generic(s.drop_first())[i
                    - piece.len()]);
            }
        }
    }
}

/// Splitting a space-free token, a space, and a remainder yields the
/// accumulated token and then the remainder's split.
proof fn lemma_split_token_space(t: Seq<char>, rest: Seq<char>, cur: Seq<char>)
    requires
        forall|i: int| 0 <= i < t.len() ==> !is_space(#[trigger] t[i]),
        cur.len() + t.len() > 0,
    ensures
        split_tokens(t + seq![' '] + rest, cur) == seq![cur + t] + split_tokens(
            rest,
            Seq::<char>::empty(),
        ),
    decreases t.len(),
{
    let s = t + seq![' '] + rest;
    if t.len() == 0 {
        assert(s[0] == ' ');
        assert(s.skip(1) =~= rest);
        assert(cur.len() > 0);
        assert(cur + t =~= cur);
    } else {
        assert(s[0] == t[0]);
        assert(!is_space(s[0]));
        assert(s.skip(1) =~= t.skip(1) + seq![' '] + rest);
        assert(forall|i: int| 0 <= i < t.skip(1).len() ==> !is_space(#[trigger] t.skip(1)[i]));
        lemma_split_token_space(t.skip(1), rest, cur.push(t[0]));
        assert(cur.push(t[0]) + t.skip(1) =~= cur + t);
    }
}

/// The space-separated tokens of a generically rendered signature are
/// exactly its per-byte tokens, each of which parses back; assembled, the
/// whole split parses back to the signature.
proof fn lemma_parse_split_render_generic(s: Seq<SigByte>)
    ensures
        parse_tokens(split_tokens(spec_render_generic(s), Seq::<char>::empty())) == Ok::<
            Seq<SigByte>,
            (Seq<char>, crate::sigbyte::ParseCause),
        >(s),
    decreases s.len(),
{
    if s.len() == 0 {
        assert(split_tokens(spec_render_generic(s), Seq::<char>::empty()) =~= Seq::<
            Seq<char>,
        >::empty());
        assert(s =~= Seq::<SigByte>::empty());
    } else {
        lemma_parse_split_render_generic(s.drop_first());
        let tok: Seq<char> = match s[0] {
            SigByte::Wildcard => seq!['?', '?'],
            SigByte::Match(v) => hex_pair(v),
        };
        match s[0] {
            SigByte::Wildcard => {
                lemma_parse_wild_token();
                assert(forall|i: int| 0 <= i < tok.len() ==> !is_space(#[trigger] tok[i]));
                assert(spec_generic(s[0]) =~= tok + seq![' ']);
            },
            SigByte::Match(v) => {
                lemma_parse_hex_pair(v);
                lemma_hex_char_props(v as int / 16);
                lemma_hex_char_props(v as int % 16);
                assert forall|i: int| 0 <= i < tok.len() implies !is_space(#[trigger] tok[i]) by {
                    assert(tok[0] == hex_char(v as int / 16));
                    assert(tok[1] == hex_char(v as int % 16));
                }
                assert(spec_generic(s[0]) =~= tok + seq![' ']);
            },
        }
        assert(parse_token(tok) == Ok::<SigByte, crate::sigbyte::ParseCause>(s[0]));
        let rest = spec_render_generic(s.drop_first());
        assert(spec_render_generic(s) =~= tok + seq![' '] + rest);
        lemma_split_token_space(tok, rest, Seq::<char>::empty());
        assert(Seq::<char>::empty() + tok =~= tok);
        let ts = seq![tok] + split_tokens(rest, Seq::<char>::empty());
        assert(split_tokens(spec_render_generic(s), Seq::<char>::empty()) == ts);
        assert(ts[0] == tok);
        assert(ts.drop_first() =~= split_tokens(rest, Seq::<char>::empty()));
        assert(parse_tokens(ts) == Ok::<Seq<SigByte>, (Seq<char>, crate::sigbyte::ParseCause)>(
            seq![s[0]] + s.drop_first(),
        ));
        assert(seq![s[0]] + s.drop_first() =~= s);
    }
}

/// Round trip, generic notation: any signature parses back from its generic
/// rendering, byte for byte.
pub proof fn lemma_parse_render_generic(s: Seq<SigByte>)
    ensures
        spec_parse(spec_render_generic(s)) == Ok::<
            Seq<SigByte>,
            (Seq<char>, crate::sigbyte::ParseCause),
        >(s),
{
    lemma_render_generic_no_bs(s);
    lemma_normalize_id(spec_render_generic(s));
    lemma_parse_split_render_generic(s);
}

/// What an escaped rendering normalizes to: a spaced wildcard token for each
/// wildcard, a space and two bare hex digits for each literal.
spec fn norm_escaped(s: Seq<SigByte>) -> Seq<char>
    decreases s.len(),
{
    if s.len() == 0 {
        Seq::empty()
    } else {
        norm_piece(s[0]) + norm_escaped(s.drop_first())
    }
}

/// One byte's normalized escaped rendering.
spec fn norm_piece(b: SigByte) -> Seq<char> {
    match b {
        SigByte::Wildcard => seq![' ', '?', '?', ' '],
        SigByte::Match(v) => seq![' '] + hex_pair(v),
    }
}

/// Normalizing an escaped rendering yields exactly the spaced pieces, as
/// long as no literal `0x2A` byte masquerades as the wildcard escape.
proof fn lemma_normalize_escaped(s: Seq<SigByte>)
    requires
        forall|i: int| 0 <= i < s.len() ==> s[i] != SigByte::Match(0x2A),
    ensures
        normalize(spec_render_escaped(s)) == norm_escaped(s),
    decreases s.len(),
{
    if s.len() == 0 {
    } else {
        assert(s[0] == s.index(0));
        lemma_normalize_escaped(s.drop_first());
        let rest = spec_render_escaped(s.drop_first());
        let whole = spec_render_escaped(s);
        assert(whole =~= spec_escaped(s[0]) + rest);
        match s[0] {
            SigByte::Wildcard => {
                assert(whole.len() >= 4);
                assert(whole[0] == '\\' && whole[1] == 'x' && whole[2] == '2' && whole[3] == 'A');
                assert(whole.skip(4) =~= rest);
                assert(normalize(whole) == seq![' ', '?', '?', ' '] + normalize(rest));
                assert(norm_escaped(s) =~= seq![' ', '?', '?', ' '] + norm_escaped(s.drop_first()));
            },
            SigByte::Match(v) => {
                let hi = v as int / 16;
                let lo = v as int % 16;
                lemma_hex_char_props(hi);
                lemma_hex_char_props(lo);
                let h = hex_char(hi);
                let l = hex_char(lo);
                assert(whole.len() >= 4);
                assert(whole[0] == '\\' && whole[1] == 'x' && whole[2] == h && whole[3] == l);
                assert(!(h == '2' && l == 'A')) by {
                    if h == '2' && l == 'A' {
                        assert(hi == 2 && lo == 10);
                        assert(v == 0x2A);
                        assert(s[0] == SigByte::Match(0x2A));
                    }
                }
                assert(whole.skip(2) =~= seq![h, l] + rest);
                assert(normalize(whole) == seq![' '] + normalize(seq![h, l] + rest));
                let hl = seq![h, l] + rest;
                assert(hl[0] == h && h != '\\');
                assert(hl.skip(1) =~= seq![l] + rest);
                assert(normalize(hl) == seq![h] + normalize(seq![l] + rest));
                let lr = seq![l] + rest;
                assert(lr[0] == l && l != '\\');
                assert(lr.skip(1) =~= rest);
                assert(normalize(lr) == seq![l] + normalize(rest));
                assert(normalize(whole) =~= (seq![' '] + hex_pair(v)) + normalize(rest));
                assert(norm_escaped(s) =~= (seq![' '] + hex_pair(v)) + norm_escaped(s.drop_first()));
            },
        }
    }
}

/// Splitting the normalized escaped pieces yields one token per byte,
/// whatever token was accumulated before them.
proof fn lemma_split_norm_escaped(s: Seq<SigByte>, cur: Seq<char>)
    ensures
        split_tokens(norm_escaped(s), cur) == (if cur.len() == 0 {
            Seq::<Seq<char>>::empty()
        } else {
            seq![cur]
        }) + escaped_tokens(s),
    decreases s.len(),
{
    let maybe_cur: Seq<Seq<char>> = if cur.len() == 0 {
        Seq::<Seq<char>>::empty()
    } else {
        seq![cur]
    };
    if s.len() == 0 {
        assert(split_tokens(norm_escaped(s), cur) =~= maybe_cur);
        assert(maybe_cur + escaped_tokens(s) =~= maybe_cur);
    } else {
        let rest = norm_escaped(s.drop_first());
        let whole = norm_escaped(s);
        assert(whole =~= norm_piece(s[0]) + rest);
        match s[0] {
            SigByte::Wildcard => {
                assert(whole[0] == ' ');
                assert(whole.skip(1) =~= seq!['?', '?', ' '] + rest);
                let s1 = seq!['?', '?', ' '] + rest;
                assert(s1[0] == '?' && !is_space('?'));
                assert(s1.skip(1) =~= seq!['?', ' '] + rest);
                let s2 = seq!['?', ' '] + rest;
                assert(s2[0] == '?');
                assert(s2.skip(1) =~= seq![' '] + rest);
                let s3 = seq![' '] + rest;
                assert(s3[0] == ' ');
                assert(s3.skip(1) =~= rest);
                if cur.len() == 0 {
                    assert(split_tokens(whole, cur) == split_tokens(s1, Seq::<char>::empty()));
                } else {
                    assert(split_tokens(whole, cur) == seq![cur] + split_tokens(
                        s1,
                        Seq::<char>::empty(),
                    ));
                }
                let c1 = Seq::<char>::empty().push('?');
                let c2 = c1.push('?');
                assert(c2 =~= seq!['?', '?']);
                assert(split_tokens(s1, Seq::<char>::empty()) == split_tokens(s2, c1));
                assert(split_tokens(s2, c1) == split_tokens(s3, c2));
                assert(c2.len() > 0);
                assert(split_tokens(s3, c2) == seq![c2] + split_tokens(rest, Seq::<char>::empty()));
                lemma_split_norm_escaped(s.drop_first(), Seq::<char>::empty());
                assert(split_tokens(rest, Seq::<char>::empty()) == escaped_tokens(s.drop_first()));
                assert(split_tokens(whole, cur) == maybe_cur + (seq![seq!['?', '?']]
                    + escaped_tokens(s.drop_first())));
                assert(maybe_cur + (seq![seq!['?', '?']] + escaped_tokens(s.drop_first()))
                    =~= maybe_cur + escaped_tokens(s));
            },
            SigByte::Match(v) => {
                let hi = v as int / 16;
                let lo = v as int % 16;
                lemma_hex_char_props(hi);
                lemma_hex_char_props(lo);
                let h = hex_char(hi);
                let l = hex_char(lo);
                assert(whole[0] == ' ');
                assert(whole.skip(1) =~= seq![h, l] + rest);
                let s1 = seq![h, l] + rest;
                assert(s1[0] == h && !is_space(h));
                assert(s1.skip(1) =~= seq![l] + rest);
                let s2 = seq![l] + rest;
                assert(s2[0] == l && !is_space(l));
                assert(s2.skip(1) =~= rest);
                if cur.len() == 0 {
                    assert(split_tokens(whole, cur) == split_tokens(s1, Seq::<char>::empty()));
                } else {
                    assert(split_tokens(whole, cur) == seq![cur] + split_tokens(
                        s1,
                        Seq::<char>::empty(),
                    ));
                }
                let c1 = Seq::<char>::empty().push(h);
                let c2 = c1.push(l);
                assert(c2 =~= hex_pair(v));
                assert(split_tokens(s1, Seq::<char>::empty()) == split_tokens(s2, c1));
                assert(split_tokens(s2, c1) == split_tokens(rest, c2));
                lemma_split_norm_escaped(s.drop_first(), c2);
                assert(split_tokens(rest, c2) == seq![c2] + escaped_tokens(s.drop_first()));
                assert(split_tokens(whole, cur) == maybe_cur + (seq![hex_pair(v)]
                    + escaped_tokens(s.drop_first())));
                assert(maybe_cur + (seq![hex_pair(v)] + escaped_tokens(s.drop_first()))
                    =~= maybe_cur + escaped_tokens(s));
            },
        }
    }
}

/// The per-byte tokens of the escaped notation after normalization.
spec fn escaped_tokens(s: Seq<SigByte>) -> Seq<Seq<char>>
    decreases s.len(),
{
    if s.len() == 0 {
        Seq::empty()
    } else {
        seq![
            match s[0] {
                SigByte::Wildcard => seq!['?', '?'],
                SigByte::Match(v) => hex_pair(v),
            },
        ] + escaped_tokens(s.drop_first())
    }
}

/// Each escaped token parses back to its byte; assembled, the token list
/// parses back to the signature.
proof fn lemma_parse_escaped_tokens(s: Seq<SigByte>)
    ensures
        parse_tokens(escaped_tokens(s)) == Ok::<
            Seq<SigByte>,
            (Seq<char>, crate::sigbyte::ParseCause),
        >(s),
    decreases s.len(),
{
    if s.len() == 0 {
        assert(s =~= Seq::<SigByte>::empty());
    } else {
        lemma_parse_escaped_tokens(s.drop_first());
        let tok: Seq<char> = match s[0] {
            SigByte::Wildcard => seq!['?', '?'],
            SigByte::Match(v) => hex_pair(v),
        };
        match s[0] {
            SigByte::Wildcard => {
                lemma_parse_wild_token();
            },
            SigByte::Match(v) => {
                lemma_parse_hex_pair(v);
            },
        }
        assert(parse_token(tok) == Ok::<SigByte, crate::sigbyte::ParseCause>(s[0]));
        let ts = escaped_tokens(s);
        assert(ts[0] == tok);
        assert(ts.drop_first() =~= escaped_tokens(s.drop_first()));
        assert(parse_tokens(ts) == Ok::<Seq<SigByte>, (Seq<char>, crate::sigbyte::ParseCause)>(
            seq![s[0]] + s.drop_first(),
        ));
        assert(seq![s[0]] + s.drop_first() =~= s);
    }
}

/// Round trip, escaped notation: a signature with no literal `0x2A` byte
/// parses back from its escaped rendering, byte for byte. A literal
/// `Match(0x2A)` is the one exclusion: its rendering is the reserved
/// wildcard escape itself.
pub proof fn lemma_parse_render_escaped(s: Seq<SigByte>)
    requires
        forall|i: int| 0 <= i < s.len() ==> s[i] != SigByte::Match(0x2A),
    ensures
        spec_parse(spec_render_escaped(s)) == Ok::<
            Seq<SigByte>,
            (Seq<char>, crate::sigbyte::ParseCause),
        >(s),
{
    lemma_normalize_escaped(s);
    lemma_split_norm_escaped(s, Seq::<char>::empty());
    assert(Seq::<Seq<char>>::empty() + escaped_tokens(s) =~= escaped_tokens(s));
    lemma_parse_escaped_tokens(s);
}

} // verus!
