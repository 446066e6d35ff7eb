//! The 5×5 key table: a key-ordered arrangement of the 25-letter alphabet.
use vstd::prelude::*;
use vstd::string::StringSliceAdditionalSpecFns;
use crate::letters::{is_table_letter, letter_filter, lemma_letter_byte, lemma_normalize_letters, normalize};

verus! {

/// The 25-letter alphabet in order: `A` to `I`, then `K` to `Z`.
pub open spec fn merged_alphabet() -> Seq<char> {
    Seq::new(25, |i: int| ((if i < 9 { 65 + i } else { 66 + i }) as u8) as char)
}

/// The first occurrence of each element of `s`, in order of first
/// occurrence.
pub open spec fn dedup(s: Seq<char>) -> Seq<char>
    decreases s.len(),
{
    if s.len() == 0 {
        Seq::empty()
    } else if dedup(s.drop_last()).contains(s.last()) {
        dedup(s.drop_last())
    } else {
        dedup(s.drop_last()).push(s.last())
    }
}

/// The letters of the table that `key` gives: the key's letters, then the
/// rest of the alphabet, each letter where it first comes.
pub open spec fn key_table(key: Seq<u8>) -> Seq<char> {
    dedup(normalize(key) + merged_alphabet())
}

/// The row and column of the cell that holds `c`.
pub open spec fn coord_of(t: Seq<char>, c: char) -> (i32, i32) {
    let i = t.index_of(c);
    ((i / 5) as i32, (i % 5) as i32)
}

/// The letter in the cell at `p`.
pub open spec fn letter_at(t: Seq<char>, p: (i32, i32)) -> char {
    t[p.0 * 5 + p.1]
}

/// Whether `p` names a cell of the 5×5 grid.
pub open spec fn in_grid(p: (i32, i32)) -> bool {
    0 <= p.0 < 5 && 0 <= p.1 < 5
}

/// Whether `t` holds each letter of the 25-letter alphabet exactly once.
pub open spec fn is_permutation(t: Seq<char>) -> bool {
    &&& t.len() == 25
    &&& t.no_duplicates()
    &&& forall|c: char| t.contains(c) <==> is_table_letter(c)
}

/// A 5×5 table of letters, read row by row: the cell in row `r` and column
/// `c` is `cells[r * 5 + c]`.
pub struct Table {
    pub cells: [u8; 25],
}

impl View for Table {
    type V = Seq<char>;

    open spec fn view(&self) -> Seq<char> {
        self.cells@.map_values(|b: u8| b as char)
    }
}

impl Table {
    /// Each letter of the alphabet stands in exactly one cell.
    pub open spec fn wf(&self) -> bool {
        is_permutation(self@)
    }

    /// The table for `key`: the key's letters in order, each only where it
    /// first comes, then the letters of the alphabet not used yet.
    pub fn new(key: &str) -> (t: Table)
        ensures
            t@ == key_table(key.spec_bytes()),
            t.wf(),
    {
        let mut letters = letter_filter(key);
        let ghost nk = letters@;
        let mut i: u8 = 0;
        while i < 25
            invariant
                0 <= i <= 25,
                letters@ == nk + merged_alphabet().subrange(0, i as int),
            decreases 25 - i,
        {
            let b: u8 = if i < 9 {
                65 + i
            } else {
                66 + i
            };
            letters.push(b as char);
            assert(merged_alphabet().subrange(0, i + 1) =~= merged_alphabet().subrange(
                0,
                i as int,
            ).push(b as char));
            i = i + 1;
        }
        assert(merged_alphabet().subrange(0, 25) =~= merged_alphabet());
        proof {
            lemma_normalize_letters(key.spec_bytes());
            lemma_alphabet();
            assert forall|k: int| 0 <= k < letters@.len() implies is_table_letter(
                #[trigger] letters@[k],
            ) by {
                if k >= nk.len() {
                    assert(letters@[k] == merged_alphabet()[k - nk.len()]);
                }
            }
        }
        let mut cells = [0u8; 25];
        let mut n: usize = 0;
        let mut j: usize = 0;
        let ghost mut placed: Seq<char> = Seq::empty();
        while j < letters.len()
            invariant
                j <= letters@.len(),
                n == placed.len(),
                n <= 25,
                placed == dedup(letters@.subrange(0, j as int)),
                placed.no_duplicates(),
                forall|c: char| placed.contains(c) ==> is_table_letter(c),
                forall|k: int| 0 <= k < n ==> #[trigger] cells@[k] as char == placed[k],
                forall|k: int| 0 <= k < letters@.len() ==> is_table_letter(#[trigger] letters@[k]),
            decreases letters@.len() - j,
        {
            let l = letters[j];
            assert(letters@.subrange(0, j + 1).drop_last() =~= letters@.subrange(0, j as int));
            let mut k: usize = 0;
            while k < n && cells[k] as char != l
                invariant
                    k <= n,
                    n <= 25,
                    forall|m: int| 0 <= m < k ==> placed[m] != l,
                    forall|m: int| 0 <= m < n ==> #[trigger] cells@[m] as char == placed[m],
                decreases n - k,
            {
                k = k + 1;
            }
            if k == n {
                assert(!placed.contains(l));
                proof {
                    lemma_dedup_props(letters@.subrange(0, j + 1));
                    lemma_letters_bound(placed.push(l));
                    lemma_letter_byte(l);
                }
                cells[n] = l as u8;
                proof {
                    placed = placed.push(l);
                }
                n = n + 1;
            } else {
                assert(placed[k as int] == l);
            }
            j = j + 1;
        }
        assert(letters@.subrange(0, j as int) =~= letters@);
        proof {
            lemma_key_table(key.spec_bytes());
        }
        let t = Table { cells };
        assert(t@ =~= placed);
        t
    }

    /// The letter in the cell at `coord`.
    pub fn char(&self, coord: (i32, i32)) -> (r: char)
        requires
            in_grid(coord),
        ensures
            r == letter_at(self@, coord),
    {
        let index = coord.0 * 5 + coord.1;
        self.cells[index as usize] as char
    }

    /// The row and column of the cell that holds `c`.
    pub fn coord(&self, c: char) -> (r: (i32, i32))
        requires
            self@.contains(c),
        ensures
            in_grid(r),
            letter_at(self@, r) == c,
            self@.no_duplicates() ==> r == coord_of(self@, c),
    {
        let mut k: usize = 0;
        while k < 25 && self.cells[k] as char != c
            invariant
                k <= 25,
                forall|m: int| 0 <= m < k ==> self@[m] != c,
            decreases 25 - k,
        {
            k = k + 1;
        }
        assert(k < 25);
        assert(self@[k as int] == c);
        let ghost i = self@.index_of(c);
        assert(self@[i] == c);
        ((k / 5) as i32, (k % 5) as i32)
    }
}

/// The alphabet holds exactly the table letters, each once.
pub proof fn lemma_alphabet()
    ensures
        is_permutation(merged_alphabet()),
{
    let a = merged_alphabet();
    assert forall|c: char| a.contains(c) <==> is_table_letter(c) by {
        if is_table_letter(c) {
            let x = c as u8;
            lemma_letter_byte(c);
            assert(x as u32 == c as u32);
            let i: int = if x < 74 { x - 65 } else { x - 66 };
            assert(a[i] == c);
        }
        if a.contains(c) {
            let i = choose|i: int| 0 <= i < 25 && a[i] == c;
            let x: u8 = (if i < 9 { 65 + i } else { 66 + i }) as u8;
            assert((x as char) as u32 == x);
        }
    }
    assert forall|i: int, j: int| 0 <= i < 25 && 0 <= j < 25 && i != j implies a[i] != a[j] by {
        let x: u8 = (if i < 9 { 65 + i } else { 66 + i }) as u8;
        let y: u8 = (if j < 9 { 65 + j } else { 66 + j }) as u8;
        assert((x as char) as u32 == x);
        assert((y as char) as u32 == y);
    }
}

/// `dedup` keeps each element once and drops none.
proof fn lemma_dedup_props(s: Seq<char>)
    ensures
        dedup(s).no_duplicates(),
        forall|c: char| dedup(s).contains(c) <==> s.contains(c),
    decreases s.len(),
{
    if s.len() > 0 {
        let p = s.drop_last();
        lemma_dedup_props(p);
        assert forall|c: char| s.contains(c) <==> (p.contains(c) || c == s.last()) by {
            if s.contains(c) && c != s.last() {
                let i = choose|i: int| 0 <= i < s.len() && s[i] == c;
                assert(p[i] == c);
            }
            if p.contains(c) {
                let i = choose|i: int| 0 <= i < p.len() && p[i] == c;
                assert(s[i] == c);
            }
            if c == s.last() {
                assert(s[s.len() - 1] == c);
            }
        }
        let dp = dedup(p);
        if !dp.contains(s.last()) {
            let ds = dp.push(s.last());
            assert forall|c: char| ds.contains(c) <==> (dp.contains(c) || c == s.last()) by {
                if ds.contains(c) && c != s.last() {
                    let i = choose|i: int| 0 <= i < ds.len() && ds[i] == c;
                    assert(dp[i] == c);
                }
                if dp.contains(c) {
                    let i = choose|i: int| 0 <= i < dp.len() && dp[i] == c;
                    assert(ds[i] == c);
                }
                if c == s.last() {
                    assert(ds[dp.len() as int] == c);
                }
            }
        }
    }
}

/// Distinct table letters are at most 25.
proof fn lemma_letters_bound(s: Seq<char>)
    requires
        s.no_duplicates(),
        forall|c: char| s.contains(c) ==> is_table_letter(c),
    ensures
        s.len() <= 25,
{
    lemma_alphabet();
    let a = merged_alphabet();
    s.unique_seq_to_set();
    a.unique_seq_to_set();
    assert forall|c: char| s.to_set().contains(c) implies a.to_set().contains(c) by {
        assert(s.contains(c));
        assert(is_table_letter(c));
    }
    vstd::set_lib::lemma_len_subset(s.to_set(), a.to_set());
}

/// Whatever the key, its table holds each letter of the alphabet exactly
/// once.
pub proof fn lemma_key_table(key: Seq<u8>)
    ensures
        is_permutation(key_table(key)),
{
    let s = normalize(key) + merged_alphabet();
    let d = dedup(s);
    let a = merged_alphabet();
    lemma_alphabet();
    lemma_normalize_letters(key);
    lemma_dedup_props(s);
    assert forall|c: char| d.contains(c) <==> is_table_letter(c) by {
        if is_table_letter(c) {
            let i = choose|i: int| 0 <= i < 25 && a[i] == c;
            assert(s[normalize(key).len() + i] == c);
        }
        if s.contains(c) {
            let i = choose|i: int| 0 <= i < s.len() && s[i] == c;
            if i < normalize(key).len() {
                assert(normalize(key)[i] == c);
            } else {
                assert(a[i - normalize(key).len()] == c);
            }
        }
    }
    d.unique_seq_to_set();
    a.unique_seq_to_set();
    assert forall|c: char| d.to_set().contains(c) <==> a.to_set().contains(c) by {
        if d.contains(c) {
            assert(is_table_letter(c));
        }
        if a.contains(c) {
            assert(is_table_letter(c));
        }
    }
    assert(d.to_set() =~= a.to_set());
}

/// In a table that holds each letter once, the cell of a letter holds it.
pub proof fn lemma_coord_of_letter(t: Seq<char>, c: char)
    requires
        is_permutation(t),
        is_table_letter(c),
    ensures
        in_grid(coord_of(t, c)),
        letter_at(t, coord_of(t, c)) == c,
{
    assert(t.contains(c));
    let i = t.index_of(c);
    assert(0 <= i < 25 && t[i] == c);
    assert((i / 5) * 5 + i % 5 == i);
}

/// In a table that holds each letter once, each cell holds a letter whose
/// cell it is.
pub proof fn lemma_letter_at_coord(t: Seq<char>, p: (i32, i32))
    requires
        is_permutation(t),
        in_grid(p),
    ensures
        is_table_letter(letter_at(t, p)),
        coord_of(t, letter_at(t, p)) == p,
{
    let i = p.0 * 5 + p.1;
    let c = t[i];
    assert(t.contains(c));
    let j = t.index_of(c);
    assert(0 <= j < 25 && t[j] == c);
    assert(j == i);
    assert(i / 5 == p.0 && i % 5 == p.1);
}

} // verus!
