use bifid::{annotate, cipher, letter_filter, reorder, Table};

fn text(v: Vec<char>) -> String {
    v.into_iter().collect()
}

fn table_string(t: &Table) -> String {
    t.cells.iter().map(|&b| b as char).collect()
}

#[test]
fn monarchy_table_rows() {
    let t = Table::new("MONARCHY");
    assert_eq!(table_string(&t), "MONARCHYBDEFGIKLPQSTUVWXZ");
}

#[test]
fn empty_key_gives_alphabet_order() {
    let t = Table::new("");
    assert_eq!(table_string(&t), "ABCDEFGHIKLMNOPQRSTUVWXYZ");
}

#[test]
fn key_with_duplicates_and_noise() {
    let t = Table::new("The Quick brown fox");
    assert_eq!(table_string(&t), "THEQUICKBROWNFXADGLMPSVYZ");
}

#[test]
fn tables_hold_each_letter_once() {
    for key in ["", "MONARCHY", "jjjj", "zyxwvutsrqponmlkjihgfedcba", "1234 !?", "Ünïcödé key"] {
        let t = Table::new(key);
        let mut seen: Vec<u8> = t.cells.to_vec();
        seen.sort();
        let expected: Vec<u8> = (b'A'..=b'Z').filter(|&b| b != b'J').collect();
        assert_eq!(seen, expected);
    }
}

#[test]
fn char_and_coord_agree() {
    let t = Table::new("MONARCHY");
    assert_eq!(t.char((0, 0)), 'M');
    assert_eq!(t.char((1, 1)), 'H');
    assert_eq!(t.char((4, 4)), 'Z');
    assert_eq!(t.coord('H'), (1, 1));
    assert_eq!(t.coord('I'), (2, 3));
    for r in 0..5 {
        for c in 0..5 {
            assert_eq!(t.coord(t.char((r, c))), (r, c));
        }
    }
}

#[test]
fn letter_filter_drops_and_folds() {
    assert_eq!(letter_filter("jam, J! 42 éz"), vec!['I', 'A', 'M', 'I', 'Z']);
    assert_eq!(letter_filter(""), Vec::<char>::new());
    assert_eq!(letter_filter("1 2 3 ?"), Vec::<char>::new());
}

#[test]
fn letter_filter_is_idempotent() {
    let once: String = text(letter_filter("Hello, Jolly World! 123"));
    assert_eq!(once, "HELLOIOLLYWORLD");
    assert_eq!(text(letter_filter(&once)), once);
}

#[test]
fn letter_filter_ignores_position() {
    let a = "ab-c";
    let b = "J.d e";
    let mut joined = letter_filter(a);
    joined.extend(letter_filter(b));
    assert_eq!(letter_filter(&format!("{}{}", a, b)), joined);
}

#[test]
fn encrypt_hello() {
    assert_eq!(text(cipher("MONARCHY", "HELLO", false)), "YSOMO");
}

#[test]
fn decrypt_hello() {
    assert_eq!(text(cipher("MONARCHY", "YSOMO", true)), "HELLO");
}

#[test]
fn encrypt_mixed_text() {
    assert_eq!(text(cipher("playfair example", "Flee at once!", false)), "PRFQCUDBCE");
}

#[test]
fn decrypt_with_empty_key() {
    assert_eq!(text(cipher("", "ABC", true)), "BAC");
}

#[test]
fn merged_letter_surfaces_as_partner() {
    assert_eq!(text(cipher("playfair example", "Jump", false)), "MILT");
    assert_eq!(text(cipher("playfair example", "Iump", false)), "MILT");
    let back = text(cipher("playfair example", "MILT", true));
    assert_eq!(back, "IUMP");
    let t = Table::new("playfair example");
    let a = annotate(&t, "j");
    assert_eq!(a, vec![('I', t.coord('I'))]);
}

#[test]
fn empty_text_gives_empty_output() {
    for key in ["", "MONARCHY", "anything at all"] {
        assert!(cipher(key, "", false).is_empty());
        assert!(cipher(key, "", true).is_empty());
        assert!(cipher(key, "12 -- ??", false).is_empty());
    }
}

#[test]
fn same_input_same_output() {
    let a = cipher("secret", "The quick brown fox", false);
    let b = cipher("secret", "The quick brown fox", false);
    assert_eq!(a, b);
    let c = cipher("secret", "The quick brown fox", true);
    let d = cipher("secret", "The quick brown fox", true);
    assert_eq!(c, d);
}

#[test]
fn round_trip_both_ways() {
    for key in ["", "MONARCHY", "Keyword with spaces"] {
        for msg in ["", "A", "ODD", "EVEN", "THEQUICKBROWNFOXIUMPSOVERTHELAZYDOG"] {
            let enc = text(cipher(key, msg, false));
            assert_eq!(text(cipher(key, &enc, true)), msg);
            let dec = text(cipher(key, msg, true));
            assert_eq!(text(cipher(key, &dec, false)), msg);
        }
    }
}

#[test]
fn output_length_matches_letters() {
    let out = cipher("MONARCHY", "Hi there, 99 friends!", false);
    assert_eq!(out.len(), letter_filter("Hi there, 99 friends!").len());
}

#[test]
fn annotate_gives_coordinates() {
    let t = Table::new("MONARCHY");
    let a = annotate(&t, "he llo");
    assert_eq!(
        a,
        vec![('H', (1, 1)), ('E', (2, 0)), ('L', (3, 0)), ('L', (3, 0)), ('O', (0, 1))]
    );
}

#[test]
fn reorder_encrypts_pairs() {
    let t = Table::new("MONARCHY");
    let a = annotate(&t, "HELLO");
    let r = reorder(&t, &a, false);
    assert_eq!(
        r,
        vec![('Y', (1, 2)), ('S', (3, 3)), ('O', (0, 1)), ('M', (0, 0)), ('O', (0, 1))]
    );
}

#[test]
fn reorder_decrypt_interleaves() {
    let t = Table::new("MONARCHY");
    let a = annotate(&t, "YSOMO");
    let r = reorder(&t, &a, true);
    assert_eq!(
        r,
        vec![('H', (1, 1)), ('E', (2, 0)), ('L', (3, 0)), ('L', (3, 0)), ('O', (0, 1))]
    );
}

#[test]
fn reorder_empty() {
    let t = Table::new("MONARCHY");
    assert!(reorder(&t, &Vec::new(), false).is_empty());
    assert!(reorder(&t, &Vec::new(), true).is_empty());
}
