//! The 5x5 Playfair table: construction from a key and position lookup.

use vstd::prelude::*;
use vstd::set_lib::lemma_len_subset;
use crate::chars::{spec_upper, to_upper};

verus! {

/// How a key character enters the table: uppercased, with 'J' merged into 'I'.
pub open spec fn key_norm(c: char) -> char {
    let u = spec_upper(c);
    if u == 'J' {
        'I'
    } else {
        u
    }
}

/// The 25 letters a Playfair table may hold: uppercase ASCII letters other than 'J'.
pub open spec fn is_table_letter(c: char) -> bool {
    'A' <= c && c <= 'Z' && c != 'J'
}

/// The full alphabet 'A'..='Z' that is scanned after the key.
pub open spec fn alphabet() -> Seq<char> {
    Seq::new(26, |i: int| (65 + i) as char)
}

/// The 25 table letters in natural order (the alphabet without 'J').
pub open spec fn table_letters_all() -> Seq<char> {
    Seq::new(25, |i: int| if i < 9 { (65 + i) as char } else { (66 + i) as char })
}

/// One placement step: a normalized character is appended if it is a table
/// letter not placed before; otherwise it is skipped.
pub open spec fn place(acc: Seq<char>, c: char) -> Seq<char> {
    if is_table_letter(c) && !acc.contains(c) {
        acc.push(c)
    } else {
        acc
    }
}

/// The letters placed by scanning a character sequence left to right,
/// normalizing each and skipping duplicates and non-letters.
pub open spec fn placed(s: Seq<char>) -> Seq<char>
    decreases s.len(),
{
    if s.len() == 0 {
        Seq::empty()
    } else {
        place(placed(s.drop_last()), key_norm(s.last()))
    }
}

/// The letters of the table built from `key`: the key's characters followed by
/// the whole alphabet, placed in order.
pub open spec fn table_letters(key: Seq<char>) -> Seq<char> {
    placed(key + alphabet())
}

/// The grid a `Vec<Vec<char>>` table denotes: a sequence of rows.
pub open spec fn view_rows(t: &Vec<Vec<char>>) -> Seq<Seq<char>> {
    t@.map_values(|row: Vec<char>| row@)
}

/// Some cell of the grid holds `c`.
pub open spec fn table_has(g: Seq<Seq<char>>, c: char) -> bool {
    exists|i: int, j: int| 0 <= i < 5 && 0 <= j < 5 && g[i][j] == c
}

/// A well-formed Playfair table: 5 rows of 5 distinct table letters,
/// together holding every one of the 25 table letters.
pub open spec fn table_wf(g: Seq<Seq<char>>) -> bool {
    &&& g.len() == 5
    &&& forall|i: int| 0 <= i < 5 ==> (#[trigger] g[i]).len() == 5
    &&& forall|i: int, j: int| 0 <= i < 5 && 0 <= j < 5 ==> is_table_letter(#[trigger] g[i][j])
    &&& forall|i1: int, j1: int, i2: int, j2: int|
        0 <= i1 < 5 && 0 <= j1 < 5 && 0 <= i2 < 5 && 0 <= j2 < 5 && #[trigger] g[i1][j1]
            == #[trigger] g[i2][j2] ==> i1 == i2 && j1 == j2
    &&& forall|c: char| is_table_letter(c) ==> table_has(g, c)
}

/// The grid lays out the letter sequence `l` row-major.
pub open spec fn grid_is_row_major(g: Seq<Seq<char>>, l: Seq<char>) -> bool {
    &&& l.len() == 25
    &&& g.len() == 5
    &&& forall|i: int| 0 <= i < 5 ==> (#[trigger] g[i]).len() == 5
    &&& forall|i: int, j: int| 0 <= i < 5 && 0 <= j < 5 ==> #[trigger] g[i][j] == l[5 * i + j]
}

/// `c` occurs in `s` after key normalization.
pub open spec fn scan_hits(s: Seq<char>, c: char) -> bool {
    exists|i: int| 0 <= i < s.len() && key_norm(s[i]) == c
}

/// The placement scan yields distinct table letters: exactly the normalized
/// letters that occur in the scanned sequence.
proof fn lemma_placed_props(s: Seq<char>)
    ensures
        placed(s).no_duplicates(),
        forall|k: int| 0 <= k < placed(s).len() ==> is_table_letter(#[trigger] placed(s)[k]),
        forall|c: char| #[trigger] placed(s).contains(c) <==> (is_table_letter(c) && scan_hits(
            s,
            c,
        )),
    decreases s.len(),
{
    if s.len() == 0 {
        assert(forall|c: char| !placed(s).contains(c));
        assert(forall|c: char| !scan_hits(s, c));
    } else {
        let prev = s.drop_last();
        lemma_placed_props(prev);
        let c0 = key_norm(s.last());
        let p = placed(prev);
        assert forall|c: char| scan_hits(s, c) implies (scan_hits(prev, c) || c0 == c) by {
            let i = choose|i: int| 0 <= i < s.len() && key_norm(s[i]) == c;
            if i < s.len() - 1 {
                assert(prev[i] == s[i]);
                assert(scan_hits(prev, c));
            }
        }
        assert forall|c: char| scan_hits(prev, c) implies scan_hits(s, c) by {
            let i = choose|i: int| 0 <= i < prev.len() && key_norm(prev[i]) == c;
            assert(s[i] == prev[i]);
        }
        if is_table_letter(c0) && !p.contains(c0) {
            assert(placed(s) == p.push(c0));
            assert forall|c: char| #[trigger] placed(s).contains(c) implies (is_table_letter(c)
                && scan_hits(s, c)) by {
                let k = choose|k: int| 0 <= k < placed(s).len() && placed(s)[k] == c;
                if k < p.len() {
                    assert(p.contains(c));
                } else {
                    assert(c == c0);
                    assert(0 <= s.len() - 1 < s.len() && key_norm(s[s.len() - 1]) == c0);
                }
            }
            assert forall|c: char| is_table_letter(c) && scan_hits(s, c) implies placed(
                s,
            ).contains(c) by {
                if c == c0 {
                    assert(placed(s)[p.len() as int] == c0);
                } else {
                    assert(scan_hits(prev, c));
                    assert(p.contains(c));
                    let k = choose|k: int| 0 <= k < p.len() && p[k] == c;
                    assert(placed(s)[k] == c);
                }
            }
        } else {
            assert(placed(s) == p);
            assert forall|c: char| is_table_letter(c) && scan_hits(s, c) implies placed(
                s,
            ).contains(c) by {
                if c == c0 {
                    if is_table_letter(c0) {
                        assert(p.contains(c0));
                    } else {
                        assert(false);
                    }
                } else {
                    assert(scan_hits(prev, c));
                }
            }
        }
    }
}

/// Scanning the key and then the whole alphabet places exactly 25 letters.
proof fn lemma_table_letters_len(key: Seq<char>)
    ensures
        table_letters(key).len() == 25,
        forall|c: char| is_table_letter(c) ==> table_letters(key).contains(c),
{
    let s = key + alphabet();
    let l = table_letters(key);
    lemma_placed_props(s);
    assert forall|c: char| is_table_letter(c) implies l.contains(c) by {
        let i = key.len() + c as int - 65;
        assert(s[i] == alphabet()[c as int - 65]);
        assert(alphabet()[c as int - 65] == c);
        assert(key_norm(c) == c);
        assert(scan_hits(s, c));
    }
    let al = table_letters_all();
    assert forall|i: int, j: int| 0 <= i < j < 25 implies al[i] != al[j] by {
        assert((al[i] as int) < (al[j] as int));
    }
    assert(al.no_duplicates());
    assert forall|j: int| 0 <= j < 25 implies is_table_letter(#[trigger] al[j]) by {
        assert(al[j] as int != 74);
    }
    l.unique_seq_to_set();
    al.unique_seq_to_set();
    assert forall|c: char| l.to_set().contains(c) implies al.to_set().contains(c) by {
        assert(l.contains(c));
        assert(is_table_letter(c));
        let j = if (c as int) < 74 {
            c as int - 65
        } else {
            c as int - 66
        };
        assert(al[j] == c);
        assert(al.contains(c));
    }
    assert forall|c: char| al.to_set().contains(c) implies l.to_set().contains(c) by {
        assert(al.contains(c));
        let j = choose|j: int| 0 <= j < 25 && al[j] == c;
        assert(is_table_letter(c));
        assert(l.contains(c));
    }
    lemma_len_subset(l.to_set(), al.to_set());
    lemma_len_subset(al.to_set(), l.to_set());
}

/// One scan step: normalize a character and place it if it is a fresh table
/// letter. `seen` caches, per alphabet index, whether a letter was placed.
fn place_char(seen: &mut Vec<bool>, letters: &mut Vec<char>, c: char)
    requires
        old(seen)@.len() == 26,
        forall|c2: char| is_table_letter(c2) ==> (old(seen)@[c2 as int - 65] <==> old(letters)@.contains(c2)),
    ensures
        final(seen)@.len() == 26,
        final(letters)@ == place(old(letters)@, key_norm(c)),
        forall|c2: char| is_table_letter(c2) ==> (final(seen)@[c2 as int - 65] <==> final(letters)@.contains(c2)),
{
    let mut u = to_upper(c);
    if u == 'J' {
        u = 'I';
    }
    proof {
        assert(u == key_norm(c));
        assert(u != 'J');
    }
    if 'A' <= u && u <= 'Z' {
        proof {
            assert(is_table_letter(u));
        }
        let idx: usize = (u as u8 - 65) as usize;
        proof {
            assert(idx == u as int - 65);
        }
        if !seen[idx] {
            proof {
                assert(!old(seen)@[u as int - 65]);
                assert(!old(letters)@.contains(u));
            }
            seen.set(idx, true);
            letters.push(u);
            proof {
                assert(final(letters)@ == old(letters)@.push(u));
                assert forall|c2: char| is_table_letter(c2) implies (final(seen)@[c2 as int - 65]
                    <==> final(letters)@.contains(c2)) by {
                    if c2 == u {
                        assert(final(letters)@[old(letters)@.len() as int] == u);
                        assert(final(letters)@.contains(u));
                        assert(final(seen)@[u as int - 65]);
                    } else {
                        assert(c2 as int - 65 != idx as int);
                        assert(final(seen)@[c2 as int - 65] == old(seen)@[c2 as int - 65]);
                        if old(letters)@.contains(c2) {
                            let k = choose|k: int|
                                0 <= k < old(letters)@.len() && old(letters)@[k] == c2;
                            assert(final(letters)@[k] == c2);
                            assert(final(letters)@.contains(c2));
                        }
                        if final(letters)@.contains(c2) {
                            let k = choose|k: int|
                                0 <= k < final(letters)@.len() && final(letters)@[k] == c2;
                            assert(k < old(letters)@.len());
                            assert(old(letters)@[k] == c2);
                            assert(old(letters)@.contains(c2));
                        }
                    }
                }
            }
        } else {
            proof {
                assert(old(seen)@[u as int - 65]);
                assert(old(letters)@.contains(u));
                assert(final(letters)@ == place(old(letters)@, key_norm(c)));
            }
        }
    } else {
        proof {
            assert(!is_table_letter(key_norm(c)));
        }
    }
}

/// Build the Playfair table for `key`: scan the key's characters and then the
/// alphabet 'A'..='Z', normalizing each (uppercase, 'J' merged into 'I'),
/// skipping non-letters and letters already placed, and lay the resulting 25
/// distinct letters out row-major in a 5x5 grid.
///
/// The result is always a well-formed table, whatever the key holds, and its
/// contents are exactly `table_letters(key@)` in row-major order.
pub fn generate_playfair_table(key: &str) -> (table: Vec<Vec<char>>)
    ensures
        table_wf(view_rows(&table)),
        grid_is_row_major(view_rows(&table), table_letters(key@)),
{
    let key_len: usize = key.unicode_len();
    let mut seen: Vec<bool> = Vec::new();
    let mut k: usize = 0;
    while k < 26
        invariant
            k <= 26,
            seen@.len() == k,
            forall|x: int| 0 <= x < k ==> !seen@[x],
        decreases 26 - k,
    {
        seen.push(false);
        k += 1;
    }
    let mut letters: Vec<char> = Vec::new();
    proof {
        assert(letters@ == placed(key@.take(0)));
    }
    let mut i: usize = 0;
    while i < key_len
        invariant
            i <= key_len,
            key_len == key@.len(),
            seen@.len() == 26,
            letters@ == placed(key@.take(i as int)),
            forall|c2: char| is_table_letter(c2) ==> (seen@[c2 as int - 65]
                <==> letters@.contains(c2)),
        decreases key_len - i,
    {
        let c = key.get_char(i);
        proof {
            let t = key@.take(i + 1);
            assert(t.drop_last() =~= key@.take(i as int));
            assert(t.last() == key@[i as int]);
        }
        place_char(&mut seen, &mut letters, c);
        i += 1;
    }
    proof {
        assert(key@.take(key_len as int) =~= key@);
        assert((key@ + alphabet()).take(key@.len() as int) =~= key@);
    }
    let mut b: u8 = 65;
    while b <= 90
        invariant
            65 <= b <= 91,
            seen@.len() == 26,
            letters@ == placed((key@ + alphabet()).take(key@.len() + b - 65)),
            forall|c2: char| is_table_letter(c2) ==> (seen@[c2 as int - 65]
                <==> letters@.contains(c2)),
        decreases 91 - b,
    {
        let c: char = b as char;
        proof {
            let t = (key@ + alphabet()).take(key@.len() + b - 65 + 1);
            assert(t.drop_last() =~= (key@ + alphabet()).take(key@.len() + b - 65));
            assert(t.last() == alphabet()[b - 65]);
            assert(alphabet()[b - 65] == c);
        }
        place_char(&mut seen, &mut letters, c);
        b += 1;
    }
    proof {
        assert((key@ + alphabet()).take(key@.len() + 26int) =~= key@ + alphabet());
        assert(letters@ == table_letters(key@));
        lemma_table_letters_len(key@);
        lemma_placed_props(key@ + alphabet());
    }
    let mut table: Vec<Vec<char>> = Vec::new();
    let mut r: usize = 0;
    while r < 5
        invariant
            r <= 5,
            table@.len() == r,
            letters@.len() == 25,
            forall|i2: int| 0 <= i2 < r ==> (#[trigger] table@[i2])@.len() == 5,
            forall|i2: int, j2: int| 0 <= i2 < r && 0 <= j2 < 5 ==> #[trigger] table@[i2]@[j2]
                == letters@[5 * i2 + j2],
        decreases 5 - r,
    {
        let mut row: Vec<char> = Vec::new();
        let mut j: usize = 0;
        while j < 5
            invariant
                j <= 5,
                r < 5,
                letters@.len() == 25,
                row@.len() == j,
                forall|j2: int| 0 <= j2 < j ==> #[trigger] row@[j2] == letters@[5 * (r as int)
                    + j2],
            decreases 5 - j,
        {
            row.push(letters[5 * r + j]);
            j += 1;
        }
        let ghost row_view = row@;
        table.push(row);
        proof {
            assert(table@[r as int]@ == row_view);
            assert forall|i2: int, j2: int| 0 <= i2 < r + 1 && 0 <= j2 < 5 implies #[trigger] table@[i2]@[j2]
                == letters@[5 * i2 + j2] by {
                if i2 == r as int {
                    assert(table@[i2]@[j2] == row_view[j2]);
                }
            }
        }
        r += 1;
    }
    proof {
        let g = view_rows(&table);
        let l = letters@;
        assert forall|i2: int| 0 <= i2 < 5 implies (#[trigger] g[i2]).len() == 5 by {
            assert(g[i2] == table@[i2]@);
        }
        assert forall|i2: int, j2: int| 0 <= i2 < 5 && 0 <= j2 < 5 implies #[trigger] g[i2][j2]
            == l[5 * i2 + j2] by {
            assert(g[i2] == table@[i2]@);
        }
        assert(grid_is_row_major(g, l));
        lemma_row_major_wf(g, l);
    }
    table
}

/// A row-major layout of 25 distinct table letters that include all 25 is a
/// well-formed table.
proof fn lemma_row_major_wf(g: Seq<Seq<char>>, l: Seq<char>)
    requires
        grid_is_row_major(g, l),
        l.no_duplicates(),
        forall|k: int| 0 <= k < 25 ==> is_table_letter(#[trigger] l[k]),
        forall|c: char| is_table_letter(c) ==> l.contains(c),
    ensures
        table_wf(g),
{
    assert forall|i1: int, j1: int, i2: int, j2: int|
        0 <= i1 < 5 && 0 <= j1 < 5 && 0 <= i2 < 5 && 0 <= j2 < 5 && #[trigger] g[i1][j1]
            == #[trigger] g[i2][j2] implies i1 == i2 && j1 == j2 by {
        assert(l[5 * i1 + j1] == l[5 * i2 + j2]);
        assert(5 * i1 + j1 == 5 * i2 + j2);
    }
    assert forall|c: char| is_table_letter(c) implies table_has(g, c) by {
        let k = choose|k: int| 0 <= k < l.len() && l[k] == c;
        let i = k / 5;
        let j = k % 5;
        assert(5 * i + j == k) by (nonlinear_arith)
            requires i == k / 5 && j == k % 5,
        ;
        assert(0 <= i < 5 && 0 <= j < 5) by (nonlinear_arith)
            requires i == k / 5 && j == k % 5 && 0 <= k < 25,
        ;
        assert(g[i][j] == c);
    }
}

/// The position the grid gives a character: the (row, column) of the cell
/// holding it.
pub open spec fn spec_locate(g: Seq<Seq<char>>, c: char) -> (int, int) {
    choose|p: (int, int)| 0 <= p.0 < 5 && 0 <= p.1 < 5 && g[p.0][p.1] == c
}

/// In a well-formed table, `spec_locate` is a bijection between the 25 table
/// letters and the 25 grid positions: every cell's letter locates back to that
/// cell, and every table letter locates to a cell holding it.
pub proof fn lemma_locate_bijection(g: Seq<Seq<char>>)
    requires
        table_wf(g),
    ensures
        forall|i: int, j: int| 0 <= i < 5 && 0 <= j < 5 ==> #[trigger] spec_locate(g, g[i][j])
            == (i, j),
        forall|c: char| is_table_letter(c) ==> 0 <= (#[trigger] spec_locate(g, c)).0 < 5 && 0
            <= spec_locate(g, c).1 < 5 && g[spec_locate(g, c).0][spec_locate(g, c).1] == c,
{
    assert forall|c: char| is_table_letter(c) implies 0 <= (#[trigger] spec_locate(g, c)).0 < 5
        && 0 <= spec_locate(g, c).1 < 5 && g[spec_locate(g, c).0][spec_locate(g, c).1] == c by {
        lemma_locate_at(g, c);
    }
    assert forall|i: int, j: int| 0 <= i < 5 && 0 <= j < 5 implies #[trigger] spec_locate(
        g,
        g[i][j],
    ) == (i, j) by {
        lemma_locate_at(g, g[i][j]);
        let p = spec_locate(g, g[i][j]);
        assert(g[p.0][p.1] == g[i][j]);
    }
}

/// In a well-formed table, `spec_locate` of a present character yields a cell
/// holding it.
pub proof fn lemma_locate_at(g: Seq<Seq<char>>, c: char)
    requires
        table_wf(g),
        table_has(g, c),
    ensures
        0 <= spec_locate(g, c).0 < 5,
        0 <= spec_locate(g, c).1 < 5,
        g[spec_locate(g, c).0][spec_locate(g, c).1] == c,
{
    let (wi, wj) = choose|wi: int, wj: int| 0 <= wi < 5 && 0 <= wj < 5 && g[wi][wj] == c;
    let ghost w = (wi, wj);
    assert(0 <= w.0 < 5 && 0 <= w.1 < 5 && g[w.0][w.1] == c);
    assert(exists|p: (int, int)| 0 <= p.0 < 5 && 0 <= p.1 < 5 && g[p.0][p.1] == c);
}

/// Find the (row, column) of `c` in the table by scanning the grid. The
/// character must be present; the scan then returns its unique position.
pub fn find_position(table: &Vec<Vec<char>>, c: char) -> (pos: (usize, usize))
    requires
        table_wf(view_rows(table)),
        table_has(view_rows(table), c),
    ensures
        pos.0 < 5,
        pos.1 < 5,
        view_rows(table)[pos.0 as int][pos.1 as int] == c,
        (pos.0 as int, pos.1 as int) == spec_locate(view_rows(table), c),
{
    let ghost g = view_rows(table);
    let mut i: usize = 0;
    while i < 5
        invariant
            i <= 5,
            table_wf(g),
            table_has(g, c),
            g == view_rows(table),
            forall|i2: int, j2: int| 0 <= i2 < i && 0 <= j2 < 5 ==> #[trigger] g[i2][j2] != c,
        decreases 5 - i,
    {
        let mut j: usize = 0;
        while j < 5
            invariant
                i < 5,
                j <= 5,
                table_wf(g),
                g == view_rows(table),
                forall|j2: int| 0 <= j2 < j ==> #[trigger] g[i as int][j2] != c,
            decreases 5 - j,
        {
            proof {
                assert(g[i as int] == table@[i as int]@);
            }
            if table[i][j] == c {
                proof {
                    assert(g[i as int][j as int] == c);
                    let ghost w = (i as int, j as int);
                    assert(0 <= w.0 < 5 && 0 <= w.1 < 5 && g[w.0][w.1] == c);
                    assert(exists|p: (int, int)| 0 <= p.0 < 5 && 0 <= p.1 < 5 && g[p.0][p.1]
                        == c);
                    let p = spec_locate(g, c);
                    assert(0 <= p.0 < 5 && 0 <= p.1 < 5 && g[p.0][p.1] == c);
                    assert(p.0 == i as int && p.1 == j as int);
                }
                return (i, j);
            }
            j += 1;
        }
        i += 1;
    }
    proof {
        let (wi, wj) = choose|wi: int, wj: int| 0 <= wi < 5 && 0 <= wj < 5 && g[wi][wj] == c;
        assert(false);
    }
    (0, 0)
}

} // verus!
