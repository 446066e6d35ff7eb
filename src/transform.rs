//! The Bifid transform on coordinates, and the cipher built on it.
use vstd::prelude::*;
use vstd::string::StringSliceAdditionalSpecFns;
use itertools::Itertools;
use crate::letters::{is_table_letter, letter_filter, normalize};
use crate::table::{
    coord_of, in_grid, is_permutation, key_table, lemma_coord_of_letter, lemma_key_table,
    lemma_letter_at_coord, letter_at, Table,
};

verus! {

/// The row of each coordinate, in order.
pub open spec fn rows_of(c: Seq<(i32, i32)>) -> Seq<i32> {
    c.map_values(|p: (i32, i32)| p.0)
}

/// The column of each coordinate, in order.
pub open spec fn cols_of(c: Seq<(i32, i32)>) -> Seq<i32> {
    c.map_values(|p: (i32, i32)| p.1)
}

/// `a[0], b[0], a[1], b[1], ...` for two sequences of one length.
pub open spec fn interleaved(a: Seq<i32>, b: Seq<i32>) -> Seq<i32> {
    Seq::new(2 * a.len(), |i: int| if i % 2 == 0 { a[i / 2] } else { b[i / 2] })
}

/// Consecutive pairs `(s[0], s[1]), (s[2], s[3]), ...`; an odd last element
/// is dropped.
pub open spec fn pairs_of(s: Seq<i32>) -> Seq<(i32, i32)> {
    Seq::new(s.len() / 2, |k: int| (s[2 * k], s[2 * k + 1]))
}

/// Encryption on coordinates: all rows, then all columns, read again in
/// pairs.
pub open spec fn encrypt_coords(c: Seq<(i32, i32)>) -> Seq<(i32, i32)> {
    pairs_of(rows_of(c) + cols_of(c))
}

/// Decryption on coordinates: rows and columns interleaved, the first half
/// taken as the new rows and the second half as the new columns.
pub open spec fn decrypt_coords(c: Seq<(i32, i32)>) -> Seq<(i32, i32)> {
    let m = interleaved(rows_of(c), cols_of(c));
    Seq::new(c.len(), |k: int| (m[k], m[c.len() + k]))
}

/// Encryption or decryption on coordinates.
pub open spec fn transform_coords(c: Seq<(i32, i32)>, decrypt: bool) -> Seq<(i32, i32)> {
    if decrypt {
        decrypt_coords(c)
    } else {
        encrypt_coords(c)
    }
}

/// Each letter with the coordinate of its cell in `t`.
pub open spec fn annotated(t: Seq<char>, s: Seq<char>) -> Seq<(char, (i32, i32))> {
    s.map_values(|c: char| (c, coord_of(t, c)))
}

/// Each coordinate with the letter in its cell of `t`.
pub open spec fn labelled(t: Seq<char>, c: Seq<(i32, i32)>) -> Seq<(char, (i32, i32))> {
    c.map_values(|p: (i32, i32)| (letter_at(t, p), p))
}

/// The coordinates of a sequence of annotated letters.
pub open spec fn coords_part(a: Seq<(char, (i32, i32))>) -> Seq<(i32, i32)> {
    a.map_values(|x: (char, (i32, i32))| x.1)
}

/// The letters of a sequence of annotated letters.
pub open spec fn letters_part(a: Seq<(char, (i32, i32))>) -> Seq<char> {
    a.map_values(|x: (char, (i32, i32))| x.0)
}

/// The cipher on letters of the alphabet, with the table `t`.
pub open spec fn cipher_letters(t: Seq<char>, s: Seq<char>, decrypt: bool) -> Seq<char> {
    letters_part(labelled(t, transform_coords(coords_part(annotated(t, s)), decrypt)))
}

/// Whether every coordinate names a cell of the grid.
pub open spec fn all_in_grid(c: Seq<(i32, i32)>) -> bool {
    forall|i: int| 0 <= i < c.len() ==> in_grid(#[trigger] c[i])
}

/// Whether every element is a letter of the alphabet.
pub open spec fn all_table_letters(s: Seq<char>) -> bool {
    forall|i: int| 0 <= i < s.len() ==> is_table_letter(#[trigger] s[i])
}

/// Relies on itertools::interleave: the items of `a` and `b` in turn,
/// starting with `a`; with two inputs of one length, nothing is left over.
#[verifier::external_body]
fn interleave_values(a: &Vec<i32>, b: &Vec<i32>) -> (r: Vec<i32>)
    requires
        a@.len() == b@.len(),
    ensures
        r@ == interleaved(a@, b@),
{
    itertools::interleave(a.iter().copied(), b.iter().copied()).collect()
}

/// Relies on Itertools::tuples: consecutive pairs of the items, with an odd
/// last item left out.
#[verifier::external_body]
fn tuples_of(v: &Vec<i32>) -> (r: Vec<(i32, i32)>)
    ensures
        r@ == pairs_of(v@),
{
    v.iter().copied().tuples().collect()
}

/// Decryption undoes encryption on coordinates.
proof fn lemma_decrypt_encrypt(c: Seq<(i32, i32)>)
    ensures
        encrypt_coords(c).len() == c.len(),
        decrypt_coords(encrypt_coords(c)) == c,
{
    let n = c.len();
    let flat = rows_of(c) + cols_of(c);
    let e = encrypt_coords(c);
    assert(flat.len() == 2 * n);
    assert((2 * n) / 2 == n);
    let m = interleaved(rows_of(e), cols_of(e));
    assert forall|i: int| 0 <= i < 2 * n implies m[i] == flat[i] by {
        let k = i / 2;
        assert(0 <= k < n);
        if i % 2 == 0 {
            assert(i == 2 * k);
        } else {
            assert(i == 2 * k + 1);
        }
    }
    assert forall|k: int| 0 <= k < n implies decrypt_coords(e)[k] == c[k] by {
        assert(m[k] == flat[k]);
        assert(m[n + k] == flat[n + k]);
    }
    assert(decrypt_coords(e) =~= c);
}

/// Encryption undoes decryption on coordinates.
proof fn lemma_encrypt_decrypt(c: Seq<(i32, i32)>)
    ensures
        decrypt_coords(c).len() == c.len(),
        encrypt_coords(decrypt_coords(c)) == c,
{
    let n = c.len();
    let d = decrypt_coords(c);
    let mc = interleaved(rows_of(c), cols_of(c));
    let flat_d = rows_of(d) + cols_of(d);
    assert(flat_d =~= mc);
    assert((2 * n) / 2 == n);
    assert forall|k: int| 0 <= k < n implies encrypt_coords(d)[k] == c[k] by {
        assert((2 * k) / 2 == k && (2 * k) % 2 == 0);
        assert((2 * k + 1) / 2 == k && (2 * k + 1) % 2 == 1);
        assert(flat_d[2 * k] == mc[2 * k]);
        assert(flat_d[2 * k + 1] == mc[2 * k + 1]);
    }
    assert(encrypt_coords(d) =~= c);
}

/// Encryption and decryption undo each other on coordinates, and keep the
/// number of coordinates.
pub proof fn lemma_coords_round_trip(c: Seq<(i32, i32)>)
    ensures
        encrypt_coords(c).len() == c.len(),
        decrypt_coords(c).len() == c.len(),
        decrypt_coords(encrypt_coords(c)) == c,
        encrypt_coords(decrypt_coords(c)) == c,
{
    lemma_decrypt_encrypt(c);
    lemma_encrypt_decrypt(c);
}

/// Both transforms take coordinates of the grid to coordinates of the grid.
pub proof fn lemma_transform_in_grid(c: Seq<(i32, i32)>, decrypt: bool)
    requires
        all_in_grid(c),
    ensures
        all_in_grid(transform_coords(c, decrypt)),
        transform_coords(c, decrypt).len() == c.len(),
{
    lemma_coords_round_trip(c);
    let n = c.len();
    let flat = rows_of(c) + cols_of(c);
    assert forall|i: int| 0 <= i < 2 * n implies 0 <= #[trigger] flat[i] < 5 by {
        if i < n {
            assert(in_grid(c[i]));
        } else {
            assert(in_grid(c[i - n]));
        }
    }
    let m = interleaved(rows_of(c), cols_of(c));
    assert forall|i: int| 0 <= i < 2 * n implies 0 <= #[trigger] m[i] < 5 by {
        assert(in_grid(c[i / 2]));
    }
    let r = transform_coords(c, decrypt);
    assert forall|k: int| 0 <= k < n implies in_grid(#[trigger] r[k]) by {
        if decrypt {
            assert(0 <= m[k] < 5);
            assert(0 <= m[n + k] < 5);
        } else {
            assert(0 <= flat[2 * k] < 5);
            assert(0 <= flat[2 * k + 1] < 5);
        }
    }
}

/// Letters of the alphabet, taken to their cells and back, are unchanged.
proof fn lemma_letters_to_coords(t: Seq<char>, s: Seq<char>)
    requires
        is_permutation(t),
        all_table_letters(s),
    ensures
        all_in_grid(coords_part(annotated(t, s))),
        letters_part(labelled(t, coords_part(annotated(t, s)))) == s,
{
    let c = coords_part(annotated(t, s));
    assert forall|i: int| 0 <= i < c.len() implies in_grid(#[trigger] c[i]) by {
        lemma_coord_of_letter(t, s[i]);
    }
    assert forall|i: int| 0 <= i < s.len() implies letters_part(labelled(t, c))[i] == s[i] by {
        lemma_coord_of_letter(t, s[i]);
    }
    assert(letters_part(labelled(t, c)) =~= s);
}

/// Cells of the grid, taken to their letters and back, are unchanged.
proof fn lemma_coords_to_letters(t: Seq<char>, c: Seq<(i32, i32)>)
    requires
        is_permutation(t),
        all_in_grid(c),
    ensures
        all_table_letters(letters_part(labelled(t, c))),
        coords_part(annotated(t, letters_part(labelled(t, c)))) == c,
{
    let s = letters_part(labelled(t, c));
    assert forall|i: int| 0 <= i < s.len() implies is_table_letter(#[trigger] s[i]) by {
        lemma_letter_at_coord(t, c[i]);
    }
    assert forall|i: int| 0 <= i < c.len() implies coords_part(annotated(t, s))[i] == c[i] by {
        lemma_letter_at_coord(t, c[i]);
    }
    assert(coords_part(annotated(t, s)) =~= c);
}

/// The cipher keeps the number of letters.
pub proof fn lemma_cipher_len(t: Seq<char>, s: Seq<char>, decrypt: bool)
    ensures
        cipher_letters(t, s, decrypt).len() == s.len(),
{
    lemma_coords_round_trip(coords_part(annotated(t, s)));
}

/// With any key, an empty text gives an empty result, in either direction.
pub proof fn lemma_empty_text(key: Seq<u8>, decrypt: bool)
    ensures
        cipher_letters(key_table(key), normalize(Seq::empty()), decrypt) == Seq::<char>::empty(),
{
    lemma_cipher_len(key_table(key), normalize(Seq::empty()), decrypt);
}

/// With any table that holds each letter once, decryption undoes encryption
/// and encryption undoes decryption, on any sequence of letters of the
/// alphabet.
pub proof fn lemma_cipher_round_trip(t: Seq<char>, s: Seq<char>)
    requires
        is_permutation(t),
        all_table_letters(s),
    ensures
        cipher_letters(t, cipher_letters(t, s, false), true) == s,
        cipher_letters(t, cipher_letters(t, s, true), false) == s,
{
    let c = coords_part(annotated(t, s));
    lemma_letters_to_coords(t, s);
    lemma_coords_round_trip(c);
    lemma_transform_in_grid(c, false);
    lemma_transform_in_grid(c, true);
    lemma_coords_to_letters(t, encrypt_coords(c));
    lemma_coords_to_letters(t, decrypt_coords(c));
}

/// For any key, decrypting what encryption gave brings back the letters, and
/// encrypting what decryption gave does too.
pub proof fn lemma_round_trip(key: Seq<u8>, s: Seq<char>)
    requires
        all_table_letters(s),
    ensures
        cipher_letters(key_table(key), cipher_letters(key_table(key), s, false), true) == s,
        cipher_letters(key_table(key), cipher_letters(key_table(key), s, true), false) == s,
{
    lemma_key_table(key);
    lemma_cipher_round_trip(key_table(key), s);
}

/// Each letter of `text` (as normalized) with the coordinate of its cell.
pub fn annotate(table: &Table, text: &str) -> (r: Vec<(char, (i32, i32))>)
    requires
        table.wf(),
    ensures
        r@ == annotated(table@, normalize(text.spec_bytes())),
        all_in_grid(coords_part(r@)),
{
    let letters = letter_filter(text);
    let mut r: Vec<(char, (i32, i32))> = Vec::new();
    let mut i: usize = 0;
    while i < letters.len()
        invariant
            i <= letters@.len(),
            table.wf(),
            all_table_letters(letters@),
            r@ =~= annotated(table@, letters@.subrange(0, i as int)),
        decreases letters@.len() - i,
    {
        let l = letters[i];
        proof {
            lemma_coord_of_letter(table@, l);
        }
        let p = table.coord(l);
        r.push((l, p));
        i = i + 1;
    }
    assert(letters@.subrange(0, i as int) =~= letters@);
    proof {
        lemma_letters_to_coords(table@, letters@);
    }
    r
}

/// The Bifid step: the coordinates of `input` rearranged for encryption or
/// decryption, each with the letter of its new cell.
pub fn reorder(table: &Table, input: &Vec<(char, (i32, i32))>, decrypt: bool) -> (r: Vec<(char, (i32, i32))>)
    requires
        all_in_grid(coords_part(input@)),
    ensures
        r@ == labelled(table@, transform_coords(coords_part(input@), decrypt)),
{
    let ghost c = coords_part(input@);
    let n = input.len();
    let mut rows: Vec<i32> = Vec::new();
    let mut cols: Vec<i32> = Vec::new();
    let mut i: usize = 0;
    while i < n
        invariant
            n == input@.len(),
            c == coords_part(input@),
            i <= n,
            rows@ =~= rows_of(c).subrange(0, i as int),
            cols@ =~= cols_of(c).subrange(0, i as int),
        decreases n - i,
    {
        let (_, (row, col)) = input[i];
        rows.push(row);
        cols.push(col);
        i = i + 1;
    }
    assert(rows@ =~= rows_of(c));
    assert(cols@ =~= cols_of(c));
    let coords: Vec<(i32, i32)> = if decrypt {
        let m = interleave_values(&rows, &cols);
        let total = m.len();
        let mut d: Vec<(i32, i32)> = Vec::new();
        let mut k: usize = 0;
        while k < n
            invariant
                n == input@.len(),
                c.len() == n,
                m@ == interleaved(rows_of(c), cols_of(c)),
                m@.len() == 2 * n,
                total == m@.len(),
                k <= n,
                d@ =~= decrypt_coords(c).subrange(0, k as int),
            decreases n - k,
        {
            d.push((m[k], m[n + k]));
            k = k + 1;
        }
        d
    } else {
        let mut flat: Vec<i32> = rows;
        let mut k: usize = 0;
        while k < n
            invariant
                n == input@.len(),
                c.len() == n,
                cols@ == cols_of(c),
                k <= n,
                flat@ =~= rows_of(c) + cols_of(c).subrange(0, k as int),
            decreases n - k,
        {
            flat.push(cols[k]);
            k = k + 1;
        }
        assert(cols_of(c).subrange(0, n as int) =~= cols_of(c));
        tuples_of(&flat)
    };
    proof {
        lemma_transform_in_grid(c, decrypt);
    }
    assert(coords@ =~= transform_coords(c, decrypt));
    let mut r: Vec<(char, (i32, i32))> = Vec::new();
    let mut k: usize = 0;
    while k < coords.len()
        invariant
            k <= coords@.len(),
            all_in_grid(coords@),
            r@ =~= labelled(table@, coords@.subrange(0, k as int)),
        decreases coords@.len() - k,
    {
        let p = coords[k];
        assert(in_grid(coords@[k as int]));
        r.push((table.char(p), p));
        k = k + 1;
    }
    assert(coords@.subrange(0, k as int) =~= coords@);
    r
}

/// Encrypts `text` with `key`, or decrypts it where `decrypt` holds: the
/// letters of the result, upper case, one for each letter of `text`.
pub fn cipher(key: &str, text: &str, decrypt: bool) -> (r: Vec<char>)
    ensures
        r@ == cipher_letters(key_table(key.spec_bytes()), normalize(text.spec_bytes()), decrypt),
        r@.len() == normalize(text.spec_bytes()).len(),
        all_table_letters(r@),
{
    let table = Table::new(key);
    let input = annotate(&table, text);
    let output = reorder(&table, &input, decrypt);
    let mut r: Vec<char> = Vec::new();
    let mut k: usize = 0;
    while k < output.len()
        invariant
            k <= output@.len(),
            r@ =~= letters_part(output@.subrange(0, k as int)),
        decreases output@.len() - k,
    {
        r.push(output[k].0);
        k = k + 1;
    }
    assert(output@.subrange(0, k as int) =~= output@);
    proof {
        let c = coords_part(annotated(table@, normalize(text.spec_bytes())));
        lemma_cipher_len(table@, normalize(text.spec_bytes()), decrypt);
        lemma_transform_in_grid(c, decrypt);
        lemma_coords_to_letters(table@, transform_coords(c, decrypt));
    }
    r
}

} // verus!
