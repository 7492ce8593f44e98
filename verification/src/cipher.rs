//! The Playfair cipher engine: text normalization, digraph pairing with 'X'
//! fillers, and the row/column/rectangle substitution rules.

use vstd::prelude::*;
use crate::chars::{is_alpha, spec_is_alpha, spec_upper, to_upper};
use crate::table::{
    find_position, is_table_letter, lemma_locate_bijection, spec_locate, table_wf, view_rows,
};

verus! {

/// Whether the engine encrypts or decrypts.
#[derive(Debug, Copy, Clone)]
pub enum CipherMode {
    Encrypt,
    Decrypt,
}

/// The input filtered to ASCII letters and uppercased.
pub open spec fn norm_text(s: Seq<char>) -> Seq<char> {
    s.filter(|c: char| spec_is_alpha(c)).map_values(|c: char| spec_upper(c))
}

/// Digraph pairing of a normalized text, scanning left to right: a repeated
/// letter within a pair is broken by an 'X' filler after its first character
/// (the second character then starts the next pair), and a final unpaired
/// character is completed with a trailing 'X'.
pub open spec fn pad(s: Seq<char>) -> Seq<char>
    decreases s.len(),
{
    if s.len() == 0 {
        Seq::empty()
    } else if s.len() == 1 {
        seq![s[0], 'X']
    } else if s[0] == s[1] {
        seq![s[0], 'X'] + pad(s.skip(1))
    } else {
        seq![s[0], s[1]] + pad(s.skip(2))
    }
}

/// The substitution of one digraph `(a, b)`: letters in the same row shift one
/// column (right to encrypt, left to decrypt, wrapping), letters in the same
/// column shift one row (down to encrypt, up to decrypt, wrapping), and
/// letters in distinct rows and columns swap columns while keeping their rows.
pub open spec fn digraph_sub(g: Seq<Seq<char>>, a: char, b: char, mode: CipherMode) -> Seq<
    char,
> {
    let p1 = spec_locate(g, a);
    let p2 = spec_locate(g, b);
    let r1 = p1.0;
    let c1 = p1.1;
    let r2 = p2.0;
    let c2 = p2.1;
    if r1 == r2 {
        match mode {
            CipherMode::Encrypt => seq![g[r1][(c1 + 1) % 5], g[r2][(c2 + 1) % 5]],
            CipherMode::Decrypt => seq![g[r1][(c1 + 4) % 5], g[r2][(c2 + 4) % 5]],
        }
    } else if c1 == c2 {
        match mode {
            CipherMode::Encrypt => seq![g[(r1 + 1) % 5][c1], g[(r2 + 1) % 5][c2]],
            CipherMode::Decrypt => seq![g[(r1 + 4) % 5][c1], g[(r2 + 4) % 5][c2]],
        }
    } else {
        seq![g[r1][c2], g[r2][c1]]
    }
}

/// Substitute a paired text digraph by digraph.
pub open spec fn cipher_pairs(g: Seq<Seq<char>>, s: Seq<char>, mode: CipherMode) -> Seq<char>
    decreases s.len(),
{
    if s.len() < 2 {
        Seq::empty()
    } else {
        digraph_sub(g, s[0], s[1], mode) + cipher_pairs(g, s.skip(2), mode)
    }
}

/// The whole cipher: normalize the text, pair it with fillers, and substitute
/// every digraph.
pub open spec fn spec_cipher(g: Seq<Seq<char>>, text: Seq<char>, mode: CipherMode) -> Seq<
    char,
> {
    cipher_pairs(g, pad(norm_text(text)), mode)
}

/// Unfolding step of `norm_text` by the last character.
proof fn lemma_norm_unfold(s: Seq<char>)
    requires
        s.len() > 0,
    ensures
        spec_is_alpha(s.last()) ==> norm_text(s) == norm_text(s.drop_last()).push(
            spec_upper(s.last()),
        ),
        !spec_is_alpha(s.last()) ==> norm_text(s) == norm_text(s.drop_last()),
{
    reveal_with_fuel(Seq::filter, 2);
    let pred = |c: char| spec_is_alpha(c);
    let up = |c: char| spec_upper(c);
    if pred(s.last()) {
        assert(s.filter(pred) == s.drop_last().filter(pred).push(s.last()));
        assert(s.filter(pred).map_values(up) =~= s.drop_last().filter(pred).map_values(
            up,
        ).push(spec_upper(s.last())));
    } else {
        assert(s.filter(pred) == s.drop_last().filter(pred));
    }
}

/// Every character of a normalized text is an uppercase ASCII letter.
proof fn lemma_norm_chars(s: Seq<char>)
    ensures
        forall|k: int| 0 <= k < norm_text(s).len() ==> 'A' <= #[trigger] norm_text(s)[k]
            && norm_text(s)[k] <= 'Z',
    decreases s.len(),
{
    if s.len() == 0 {
        reveal_with_fuel(Seq::filter, 1);
        assert(norm_text(s).len() == 0);
    } else {
        lemma_norm_chars(s.drop_last());
        lemma_norm_unfold(s);
    }
}

/// Normalizing leaves a text of uppercase ASCII letters unchanged.
proof fn lemma_norm_upper_id(s: Seq<char>)
    requires
        forall|k: int| 0 <= k < s.len() ==> 'A' <= #[trigger] s[k] && s[k] <= 'Z',
    ensures
        norm_text(s) == s,
    decreases s.len(),
{
    if s.len() == 0 {
        reveal_with_fuel(Seq::filter, 1);
        assert(norm_text(s) =~= s);
    } else {
        lemma_norm_upper_id(s.drop_last());
        lemma_norm_unfold(s);
        assert(spec_is_alpha(s.last()) && spec_upper(s.last()) == s.last());
        assert(norm_text(s) =~= s);
    }
}

/// Pairing yields a text of even length.
proof fn lemma_pad_even(s: Seq<char>)
    ensures
        pad(s).len() % 2 == 0,
    decreases s.len(),
{
    if s.len() == 0 {
    } else if s.len() == 1 {
    } else if s[0] == s[1] {
        lemma_pad_even(s.skip(1));
    } else {
        lemma_pad_even(s.skip(2));
    }
}

/// Every character of a paired text is 'X' or a character of the text.
proof fn lemma_pad_chars(s: Seq<char>)
    ensures
        forall|k: int| 0 <= k < pad(s).len() ==> pad(s)[k] == 'X' || s.contains(
            #[trigger] pad(s)[k],
        ),
    decreases s.len(),
{
    if s.len() == 0 {
    } else if s.len() == 1 {
        assert forall|k: int| 0 <= k < pad(s).len() implies pad(s)[k] == 'X' || s.contains(
            #[trigger] pad(s)[k],
        ) by {
            if k == 0 {
                assert(s[0] == pad(s)[0]);
            }
        }
    } else if s[0] == s[1] {
        lemma_pad_chars(s.skip(1));
        assert forall|k: int| 0 <= k < pad(s).len() implies pad(s)[k] == 'X' || s.contains(
            #[trigger] pad(s)[k],
        ) by {
            if k == 0 {
                assert(s[0] == pad(s)[0]);
            } else if k >= 2 {
                let t = s.skip(1);
                assert(pad(s)[k] == pad(t)[k - 2]);
                if pad(t)[k - 2] != 'X' {
                    let m = choose|m: int| 0 <= m < t.len() && t[m] == pad(t)[k - 2];
                    assert(s[m + 1] == pad(s)[k]);
                }
            }
        }
    } else {
        lemma_pad_chars(s.skip(2));
        assert forall|k: int| 0 <= k < pad(s).len() implies pad(s)[k] == 'X' || s.contains(
            #[trigger] pad(s)[k],
        ) by {
            if k == 0 {
                assert(s[0] == pad(s)[0]);
            } else if k == 1 {
                assert(s[1] == pad(s)[1]);
            } else {
                let t = s.skip(2);
                assert(pad(s)[k] == pad(t)[k - 2]);
                if pad(t)[k - 2] != 'X' {
                    let m = choose|m: int| 0 <= m < t.len() && t[m] == pad(t)[k - 2];
                    assert(s[m + 2] == pad(s)[k]);
                }
            }
        }
    }
}

/// Normalize the text for ciphering: keep ASCII letters only, uppercased.
fn normalize_chars(text: &str) -> (chars: Vec<char>)
    ensures
        chars@ == norm_text(text@),
{
    let n: usize = text.unicode_len();
    let mut chars: Vec<char> = Vec::new();
    proof {
        reveal_with_fuel(Seq::filter, 1);
        assert(chars@ =~= norm_text(text@.take(0)));
    }
    let mut i: usize = 0;
    while i < n
        invariant
            i <= n,
            n == text@.len(),
            chars@ == norm_text(text@.take(i as int)),
        decreases n - i,
    {
        let c = text.get_char(i);
        proof {
            let t = text@.take(i + 1);
            assert(t.drop_last() =~= text@.take(i as int));
            assert(t.last() == text@[i as int]);
            lemma_norm_unfold(t);
        }
        if is_alpha(c) {
            chars.push(to_upper(c));
        }
        i += 1;
    }
    proof {
        assert(text@.take(n as int) =~= text@);
    }
    chars
}

/// Pair the normalized text: emit digraphs left to right, breaking a repeated
/// letter with an 'X' filler and completing a final unpaired letter with 'X'.
fn pair_chars(chars: &Vec<char>) -> (padded: Vec<char>)
    ensures
        padded@ == pad(chars@),
{
    let n: usize = chars.len();
    let mut padded: Vec<char> = Vec::new();
    proof {
        assert(chars@.skip(0) =~= chars@);
        assert(padded@ + pad(chars@.skip(0)) =~= pad(chars@));
    }
    let mut i: usize = 0;
    while i < n
        invariant
            i <= n,
            n == chars@.len(),
            pad(chars@) == padded@ + pad(chars@.skip(i as int)),
        decreases n - i,
    {
        let ghost rest = chars@.skip(i as int);
        if i + 1 < n && chars[i] == chars[i + 1] {
            padded.push(chars[i]);
            padded.push('X');
            proof {
                assert(rest[0] == rest[1]);
                assert(rest.skip(1) =~= chars@.skip(i + 1));
                assert(padded@ + pad(chars@.skip(i + 1)) =~= pad(chars@));
            }
            i += 1;
        } else if i + 1 < n {
            padded.push(chars[i]);
            padded.push(chars[i + 1]);
            proof {
                assert(rest[0] != rest[1]);
                assert(rest.skip(2) =~= chars@.skip(i + 2));
                assert(padded@ + pad(chars@.skip(i + 2)) =~= pad(chars@));
            }
            i += 2;
        } else {
            padded.push(chars[i]);
            padded.push('X');
            proof {
                assert(rest.len() == 1);
                assert(padded@ + pad(chars@.skip(i + 1)) =~= pad(chars@));
            }
            i += 1;
        }
    }
    proof {
        assert(chars@.skip(n as int) =~= Seq::<char>::empty());
        assert(padded@ =~= pad(chars@));
    }
    padded
}

/// Relies on String::push: it appends exactly one character at the end.
#[verifier::external_body]
fn push_char(s: &mut String, c: char)
    ensures
        final(s)@ == old(s)@.push(c),
{
    s.push(c);
}

/// Encrypt or decrypt `text` with a Playfair `table`.
///
/// The text is filtered to ASCII letters, uppercased, and paired with 'X'
/// fillers; each digraph is then substituted by the row, column or rectangle
/// rule of the mode. The result is exactly `spec_cipher` of the text, and its
/// length is the (even) length of the paired normalized text.
///
/// The text must not hold the letter 'J' (the table merges 'J' into 'I', so a
/// 'J' has no position), and the table must be well formed, as
/// `generate_playfair_table` guarantees.
pub fn playfair_cipher(text: &str, table: &Vec<Vec<char>>, mode: CipherMode) -> (result: String)
    requires
        table_wf(view_rows(table)),
        forall|i: int| 0 <= i < text@.len() ==> text@[i] != 'J' && text@[i] != 'j',
    ensures
        result@ == spec_cipher(view_rows(table), text@, mode),
        result@.len() == pad(norm_text(text@)).len(),
        result@.len() % 2 == 0,
{
    let ghost g = view_rows(table);
    let chars = normalize_chars(text);
    proof {
        lemma_norm_chars(text@);
        assert forall|k: int| 0 <= k < chars@.len() implies is_table_letter(
            #[trigger] chars@[k],
        ) by {
            lemma_norm_no_j(text@, k);
        }
    }
    let padded = pair_chars(&chars);
    proof {
        lemma_pad_even(chars@);
        lemma_pad_chars(chars@);
        assert forall|k: int| 0 <= k < padded@.len() implies is_table_letter(
            #[trigger] padded@[k],
        ) by {
            if padded@[k] != 'X' {
                assert(chars@.contains(padded@[k]));
            }
        }
    }
    let n: usize = padded.len();
    let mut result = String::new();
    proof {
        assert(padded@.skip(0) =~= padded@);
        assert(result@ + cipher_pairs(g, padded@.skip(0), mode) =~= cipher_pairs(
            g,
            padded@,
            mode,
        ));
    }
    let mut i: usize = 0;
    while i < n
        invariant
            i <= n,
            i % 2 == 0,
            n % 2 == 0,
            n == padded@.len(),
            table_wf(g),
            g == view_rows(table),
            forall|k: int| 0 <= k < padded@.len() ==> is_table_letter(#[trigger] padded@[k]),
            result@.len() == i,
            cipher_pairs(g, padded@, mode) == result@ + cipher_pairs(
                g,
                padded@.skip(i as int),
                mode,
            ),
        decreases n - i,
    {
        let a = padded[i];
        let b = padded[i + 1];
        let (r1, c1) = find_position(table, a);
        let (r2, c2) = find_position(table, b);
        let (x, y) = if r1 == r2 {
            match mode {
                CipherMode::Encrypt => (table[r1][(c1 + 1) % 5], table[r2][(c2 + 1) % 5]),
                CipherMode::Decrypt => (table[r1][(c1 + 4) % 5], table[r2][(c2 + 4) % 5]),
            }
        } else if c1 == c2 {
            match mode {
                CipherMode::Encrypt => (table[(r1 + 1) % 5][c1], table[(r2 + 1) % 5][c2]),
                CipherMode::Decrypt => (table[(r1 + 4) % 5][c1], table[(r2 + 4) % 5][c2]),
            }
        } else {
            (table[r1][c2], table[r2][c1])
        };
        push_char(&mut result, x);
        push_char(&mut result, y);
        proof {
            let rest = padded@.skip(i as int);
            assert(rest[0] == a && rest[1] == b);
            assert(seq![x, y] =~= digraph_sub(g, a, b, mode));
            assert(rest.skip(2) =~= padded@.skip(i + 2));
            assert(cipher_pairs(g, rest, mode) == seq![x, y] + cipher_pairs(
                g,
                padded@.skip(i + 2),
                mode,
            ));
            assert(result@ + cipher_pairs(g, padded@.skip(i + 2), mode) =~= cipher_pairs(
                g,
                padded@,
                mode,
            ));
        }
        i += 2;
    }
    proof {
        assert(padded@.skip(n as int) =~= Seq::<char>::empty());
        assert(result@ =~= cipher_pairs(g, padded@, mode));
    }
    result
}

/// No digraph of `s` (a pair at an even index) holds two equal characters.
pub open spec fn digraph_distinct(s: Seq<char>) -> bool {
    forall|k: int| 0 <= k && 2 * k + 1 < s.len() ==> s[2 * k] != #[trigger] s[2 * k + 1]
}

/// Pairing leaves a text of even length with distinct digraph characters
/// unchanged: no filler is inserted.
proof fn lemma_pad_id(s: Seq<char>)
    requires
        s.len() % 2 == 0,
        digraph_distinct(s),
    ensures
        pad(s) == s,
    decreases s.len(),
{
    if s.len() == 0 {
        assert(pad(s) =~= s);
    } else {
        let k0: int = 0;
        assert(s[2 * k0] != s[2 * k0 + 1]);
        assert(s[0] != s[1]);
        let t = s.skip(2);
        assert forall|k: int| 0 <= k && 2 * k + 1 < t.len() implies t[2 * k] != #[trigger] t[2
            * k + 1] by {
            assert(t[2 * k] == s[2 * (k + 1)]);
            assert(t[2 * k + 1] == s[2 * (k + 1) + 1]);
        }
        lemma_pad_id(t);
        assert(pad(s) =~= s);
    }
}

/// One digraph substitution round trip: encrypting two distinct table letters
/// yields two distinct table letters, and decrypting that pair restores the
/// original pair.
proof fn lemma_digraph_round_trip(g: Seq<Seq<char>>, a: char, b: char)
    requires
        table_wf(g),
        is_table_letter(a),
        is_table_letter(b),
        a != b,
    ensures
        digraph_sub(g, a, b, CipherMode::Encrypt).len() == 2,
        is_table_letter(digraph_sub(g, a, b, CipherMode::Encrypt)[0]),
        is_table_letter(digraph_sub(g, a, b, CipherMode::Encrypt)[1]),
        digraph_sub(g, a, b, CipherMode::Encrypt)[0] != digraph_sub(
            g,
            a,
            b,
            CipherMode::Encrypt,
        )[1],
        digraph_sub(
            g,
            digraph_sub(g, a, b, CipherMode::Encrypt)[0],
            digraph_sub(g, a, b, CipherMode::Encrypt)[1],
            CipherMode::Decrypt,
        ) == seq![a, b],
{
    lemma_locate_bijection(g);
    let p1 = spec_locate(g, a);
    let p2 = spec_locate(g, b);
    let r1 = p1.0;
    let c1 = p1.1;
    let r2 = p2.0;
    let c2 = p2.1;
    let e = digraph_sub(g, a, b, CipherMode::Encrypt);
    if r1 == r2 {
        let x = g[r1][(c1 + 1) % 5];
        let y = g[r2][(c2 + 1) % 5];
        assert(c1 != c2);
        assert((c1 + 1) % 5 != (c2 + 1) % 5);
        assert(spec_locate(g, x) == (r1, (c1 + 1) % 5));
        assert(spec_locate(g, y) == (r2, (c2 + 1) % 5));
        assert(((c1 + 1) % 5 + 4) % 5 == c1);
        assert(((c2 + 1) % 5 + 4) % 5 == c2);
        assert(digraph_sub(g, x, y, CipherMode::Decrypt) =~= seq![a, b]);
    } else if c1 == c2 {
        let x = g[(r1 + 1) % 5][c1];
        let y = g[(r2 + 1) % 5][c2];
        assert((r1 + 1) % 5 != (r2 + 1) % 5);
        assert(spec_locate(g, x) == ((r1 + 1) % 5, c1));
        assert(spec_locate(g, y) == ((r2 + 1) % 5, c2));
        assert(((r1 + 1) % 5 + 4) % 5 == r1);
        assert(((r2 + 1) % 5 + 4) % 5 == r2);
        assert(digraph_sub(g, x, y, CipherMode::Decrypt) =~= seq![a, b]);
    } else {
        let x = g[r1][c2];
        let y = g[r2][c1];
        assert(spec_locate(g, x) == (r1, c2));
        assert(spec_locate(g, y) == (r2, c1));
        assert(digraph_sub(g, x, y, CipherMode::Decrypt) =~= seq![a, b]);
    }
}

/// Digraph-wise round trip for a whole paired text: encrypting a text of
/// distinct-digraph table letters yields one of the same shape, and
/// decrypting it restores the text.
proof fn lemma_pairs_round_trip(g: Seq<Seq<char>>, s: Seq<char>)
    requires
        table_wf(g),
        s.len() % 2 == 0,
        forall|k: int| 0 <= k < s.len() ==> is_table_letter(#[trigger] s[k]),
        digraph_distinct(s),
    ensures
        cipher_pairs(g, s, CipherMode::Encrypt).len() == s.len(),
        forall|k: int| 0 <= k < s.len() ==> is_table_letter(
            #[trigger] cipher_pairs(g, s, CipherMode::Encrypt)[k],
        ),
        digraph_distinct(cipher_pairs(g, s, CipherMode::Encrypt)),
        cipher_pairs(g, cipher_pairs(g, s, CipherMode::Encrypt), CipherMode::Decrypt) == s,
    decreases s.len(),
{
    let e = cipher_pairs(g, s, CipherMode::Encrypt);
    if s.len() == 0 {
        assert(cipher_pairs(g, e, CipherMode::Decrypt) =~= s);
    } else {
        let a = s[0];
        let b = s[1];
        let k0: int = 0;
        assert(s[2 * k0] != s[2 * k0 + 1]);
        assert(a != b);
        lemma_digraph_round_trip(g, a, b);
        let t = s.skip(2);
        assert forall|k: int| 0 <= k && 2 * k + 1 < t.len() implies t[2 * k] != #[trigger] t[2
            * k + 1] by {
            assert(t[2 * k] == s[2 * (k + 1)]);
            assert(t[2 * k + 1] == s[2 * (k + 1) + 1]);
        }
        lemma_pairs_round_trip(g, t);
        let d = digraph_sub(g, a, b, CipherMode::Encrypt);
        let et = cipher_pairs(g, t, CipherMode::Encrypt);
        assert(e == d + et);
        assert(e.len() == s.len());
        assert forall|k: int| 0 <= k < s.len() implies is_table_letter(#[trigger] e[k]) by {
            if k >= 2 {
                assert(e[k] == et[k - 2]);
            }
        }
        assert forall|k: int| 0 <= k && 2 * k + 1 < e.len() implies e[2 * k] != #[trigger] e[2
            * k + 1] by {
            if k >= 1 {
                assert(e[2 * k] == et[2 * (k - 1)]);
                assert(e[2 * k + 1] == et[2 * (k - 1) + 1]);
            }
        }
        assert(e.skip(2) =~= et);
        assert(cipher_pairs(g, e, CipherMode::Decrypt) == digraph_sub(
            g,
            e[0],
            e[1],
            CipherMode::Decrypt,
        ) + cipher_pairs(g, et, CipherMode::Decrypt));
        assert(digraph_sub(g, e[0], e[1], CipherMode::Decrypt) == seq![a, b]);
        assert(cipher_pairs(g, e, CipherMode::Decrypt) =~= s);
    }
}

/// In a text of ASCII letters only, normalizing just uppercases each
/// character.
proof fn lemma_norm_alpha(s: Seq<char>)
    requires
        forall|i: int| 0 <= i < s.len() ==> spec_is_alpha(#[trigger] s[i]),
    ensures
        norm_text(s).len() == s.len(),
        forall|i: int| 0 <= i < s.len() ==> #[trigger] norm_text(s)[i] == spec_upper(s[i]),
    decreases s.len(),
{
    if s.len() == 0 {
        reveal_with_fuel(Seq::filter, 1);
        assert(norm_text(s).len() == 0);
    } else {
        lemma_norm_alpha(s.drop_last());
        lemma_norm_unfold(s);
    }
}

/// The round trip law: for an ASCII-letter text of even length, without 'J',
/// in which no digraph holds a repeated letter (up to case), decrypting the
/// encryption restores the normalized text — the text uppercased, with no
/// fillers inserted.
pub proof fn lemma_round_trip(g: Seq<Seq<char>>, text: Seq<char>)
    requires
        table_wf(g),
        text.len() % 2 == 0,
        forall|i: int| 0 <= i < text.len() ==> spec_is_alpha(#[trigger] text[i]) && text[i]
            != 'J' && text[i] != 'j',
        forall|k: int| 0 <= k && 2 * k + 1 < text.len() ==> spec_upper(text[2 * k])
            != spec_upper(#[trigger] text[2 * k + 1]),
    ensures
        spec_cipher(g, spec_cipher(g, text, CipherMode::Encrypt), CipherMode::Decrypt)
            == norm_text(text),
{
    let s = norm_text(text);
    lemma_norm_alpha(text);
    assert forall|k: int| 0 <= k < s.len() implies is_table_letter(#[trigger] s[k]) by {
        lemma_norm_no_j(text, k);
    }
    assert forall|k: int| 0 <= k && 2 * k + 1 < s.len() implies s[2 * k] != #[trigger] s[2 * k
        + 1] by {
        assert(s[2 * k] == spec_upper(text[2 * k]));
        assert(s[2 * k + 1] == spec_upper(text[2 * k + 1]));
    }
    lemma_pad_id(s);
    lemma_pairs_round_trip(g, s);
    let e = cipher_pairs(g, s, CipherMode::Encrypt);
    assert(spec_cipher(g, text, CipherMode::Encrypt) == e);
    lemma_norm_upper_id(e);
    lemma_pad_id(e);
    assert(spec_cipher(g, e, CipherMode::Decrypt) == cipher_pairs(g, e, CipherMode::Decrypt));
}

/// A normalized character of a text without 'J' or 'j' is a table letter.
proof fn lemma_norm_no_j(s: Seq<char>, k: int)
    requires
        forall|i: int| 0 <= i < s.len() ==> s[i] != 'J' && s[i] != 'j',
        0 <= k < norm_text(s).len(),
    ensures
        is_table_letter(norm_text(s)[k]),
    decreases s.len(),
{
    lemma_norm_chars(s);
    if s.len() > 0 {
        lemma_norm_unfold(s);
        if spec_is_alpha(s.last()) && k == norm_text(s).len() - 1 {
            assert(norm_text(s)[k] == spec_upper(s.last()));
            assert(spec_upper(s.last()) != 'J');
        } else {
            assert(forall|i: int| 0 <= i < s.drop_last().len() ==> s.drop_last()[i] != 'J'
                && s.drop_last()[i] != 'j');
            lemma_norm_no_j(s.drop_last(), k);
        }
    }
}

} // verus!
