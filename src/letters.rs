//! Filtering raw text down to the letters that the cipher works on.
use vstd::prelude::*;
use vstd::string::StringSliceAdditionalSpecFns;

verus! {

/// ASCII upper case of a byte; other bytes are kept.
pub open spec fn upper(b: u8) -> u8 {
    if 97 <= b <= 122 {
        (b - 32) as u8
    } else {
        b
    }
}

/// Whether a byte is an ASCII letter, in either case.
pub open spec fn is_letter(b: u8) -> bool {
    65 <= upper(b) <= 90
}

/// The table letter that an ASCII letter stands for: its upper case, with
/// `J` written as `I`.
pub open spec fn canon(b: u8) -> char {
    if upper(b) == 74 {
        'I'
    } else {
        upper(b) as char
    }
}

/// A letter of the 25-letter alphabet: `A` to `Z` without `J`.
pub open spec fn is_table_letter(c: char) -> bool {
    65 <= c as u32 <= 90 && c as u32 != 74
}

/// The letters of a byte string, in order: ASCII letters only, upper case,
/// with `J` as `I`. Every other byte is dropped.
pub open spec fn normalize(s: Seq<u8>) -> Seq<char>
    decreases s.len(),
{
    if s.len() == 0 {
        Seq::empty()
    } else if is_letter(s.last()) {
        normalize(s.drop_last()).push(canon(s.last()))
    } else {
        normalize(s.drop_last())
    }
}

/// The bytes of a sequence of ASCII characters.
pub open spec fn ascii_bytes(cs: Seq<char>) -> Seq<u8> {
    cs.map_values(|c: char| c as u8)
}

/// Every letter that normalization yields is a letter of the table's
/// alphabet; in particular `J` never comes out.
pub proof fn lemma_normalize_letters(s: Seq<u8>)
    ensures
        forall|i: int| 0 <= i < normalize(s).len() ==> is_table_letter(#[trigger] normalize(s)[i]),
        normalize(s).len() <= s.len(),
    decreases s.len(),
{
    if s.len() > 0 {
        lemma_normalize_letters(s.drop_last());
        let b = s.last();
        if is_letter(b) {
            assert(is_table_letter(canon(b))) by {
                assert((upper(b) as char) as u32 == upper(b) as u32);
            }
        }
    }
}

/// A table letter survives the round trip through its byte.
pub(crate) proof fn lemma_letter_byte(c: char)
    requires
        is_table_letter(c),
    ensures
        (c as u8) as char == c,
        is_letter(c as u8),
        canon(c as u8) == c,
{
}

/// Normalization treats each byte alike wherever it stands: the letters of
/// two texts put together are the letters of the first, then those of the
/// second.
pub proof fn lemma_normalize_concat(a: Seq<u8>, b: Seq<u8>)
    ensures
        normalize(a + b) == normalize(a) + normalize(b),
    decreases b.len(),
{
    if b.len() == 0 {
        assert(a + b =~= a);
        assert(normalize(a) + normalize(b) =~= normalize(a));
    } else {
        assert((a + b).drop_last() =~= a + b.drop_last());
        lemma_normalize_concat(a, b.drop_last());
        if is_letter(b.last()) {
            assert(normalize(a) + normalize(b) =~= (normalize(a) + normalize(b.drop_last())).push(
                canon(b.last()),
            ));
        }
    }
}

/// `J` and `j`, wherever they stand, come out as `I`.
pub proof fn lemma_merged_letter(a: Seq<u8>, b: Seq<u8>)
    ensures
        normalize(a + seq![74u8] + b) == normalize(a) + seq!['I'] + normalize(b),
        normalize(a + seq![106u8] + b) == normalize(a) + seq!['I'] + normalize(b),
{
    let e: Seq<u8> = Seq::empty();
    assert(seq![74u8].drop_last() =~= e);
    assert(seq![106u8].drop_last() =~= e);
    assert(normalize(e) =~= Seq::<char>::empty());
    assert(seq![74u8].last() == 74u8 && is_letter(74u8) && canon(74u8) == 'I');
    assert(normalize(seq![74u8]) =~= seq!['I']);
    assert(normalize(seq![106u8]) =~= seq!['I']);
    lemma_normalize_concat(a, seq![74u8]);
    lemma_normalize_concat(a + seq![74u8], b);
    lemma_normalize_concat(a, seq![106u8]);
    lemma_normalize_concat(a + seq![106u8], b);
}

/// Text made of table letters only is left as it is by normalization.
pub proof fn lemma_normalize_letters_unchanged(t: Seq<char>)
    requires
        forall|i: int| 0 <= i < t.len() ==> is_table_letter(#[trigger] t[i]),
    ensures
        normalize(ascii_bytes(t)) == t,
    decreases t.len(),
{
    if t.len() > 0 {
        let b = ascii_bytes(t);
        assert(b.drop_last() =~= ascii_bytes(t.drop_last()));
        lemma_normalize_letters_unchanged(t.drop_last());
        let c = t.last();
        lemma_letter_byte(c);
        assert(b.last() == c as u8);
        assert(t =~= t.drop_last().push(c));
    }
}

/// Normalizing text that is already normalized changes nothing.
pub proof fn lemma_normalize_idempotent(s: Seq<u8>)
    ensures
        normalize(ascii_bytes(normalize(s))) == normalize(s),
{
    lemma_normalize_letters(s);
    lemma_normalize_letters_unchanged(normalize(s));
}

/// The letters of `input`, in order: each ASCII letter, upper case, with `J`
/// written as `I`; every other byte is dropped.
pub fn letter_filter(input: &str) -> (r: Vec<char>)
    ensures
        r@ == normalize(input.spec_bytes()),
        forall|i: int| 0 <= i < r@.len() ==> is_table_letter(#[trigger] r@[i]),
{
    let bytes = input.as_bytes();
    let mut r: Vec<char> = Vec::new();
    let mut i: usize = 0;
    while i < bytes.len()
        invariant
            0 <= i <= bytes@.len(),
            bytes@ == input.spec_bytes(),
            r@ == normalize(bytes@.subrange(0, i as int)),
        decreases bytes@.len() - i,
    {
        let b = bytes[i];
        let u: u8 = if b >= 97 && b <= 122 {
            b - 32
        } else {
            b
        };
        assert(bytes@.subrange(0, i + 1).drop_last() =~= bytes@.subrange(0, i as int));
        if u >= 65 && u <= 90 {
            let c: char = if u == 74 {
                'I'
            } else {
                u as char
            };
            r.push(c);
        }
        i = i + 1;
    }
    assert(bytes@.subrange(0, i as int) =~= bytes@);
    proof {
        lemma_normalize_letters(bytes@);
    }
    r
}

} // verus!
