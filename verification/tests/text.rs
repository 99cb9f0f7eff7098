use eyebrowse::bytes::{read16, read32, read64, to_bytes};
use eyebrowse::shape::count;
use eyebrowse::table::{position, sort_names};
use eyebrowse::text::{decimal, find, in_order, reads_as_index, strip_prefix, strip_suffix};

#[test]
fn numerals_read_back() {
    for n in [0u64, 7, 10, 99, 100, 4_294_967_296, u64::MAX] {
        let s = decimal(n);
        assert_eq!(s, format!("{}", n));
        assert_eq!(s.parse::<u64>().unwrap(), n);
        assert!(reads_as_index(&s));
    }
    for s in ["+7", "007", "+0"] {
        assert!(reads_as_index(s), "{}", s);
    }
    for s in ["", "+", "-1", "1a", " 1", "++1", "18446744073709551616"] {
        assert!(!reads_as_index(s), "{}", s);
    }
}

#[test]
fn parts_of_a_text() {
    assert_eq!(find("a.b.c", '.'), 1);
    assert_eq!(find("abc", '.'), 3);
    assert_eq!(find("é.", '.'), 1);
    assert_eq!(strip_prefix("model.norm", "model."), Some("norm"));
    assert_eq!(strip_prefix("model", "model."), None);
    assert_eq!(strip_prefix("x", ""), Some("x"));
    assert_eq!(strip_suffix("norm.weight", ".weight"), Some("norm"));
    assert_eq!(strip_suffix("weight", ".weight"), None);
}

#[test]
fn texts_are_ordered_as_the_standard_library_orders_them() {
    let words = ["", "a", "ab", "b", "a.10", "a.2", "é", "\u{10000}", "\u{ffff}", "Z"];
    for a in words {
        for b in words {
            assert_eq!(in_order(a, b), a <= b, "{} {}", a, b);
        }
    }
    let mut want: Vec<String> = words.iter().map(|w| w.to_string()).collect();
    let got = sort_names(want.clone());
    want.sort();
    assert_eq!(got, want);
    assert_eq!(sort_names(vec!["b".to_string(), "b".to_string(), "a".to_string()]).len(), 3);
}

#[test]
fn the_last_entry_of_a_name_counts() {
    let table = vec![("a".to_string(), 1), ("b".to_string(), 2), ("a".to_string(), 3)];
    assert_eq!(position(&table, "a"), Some(2));
    assert_eq!(position(&table, "b"), Some(1));
    assert_eq!(position(&table, "c"), None);
}

#[test]
fn words_read_back_from_their_bytes() {
    let words = [0u32, 1, 0x1234_5678, u32::MAX];
    let bytes = to_bytes(&words);
    assert_eq!(bytes.len(), 16);
    for (i, w) in words.iter().enumerate() {
        assert_eq!(read32(&bytes, 4 * i), *w);
    }
    assert_eq!(bytes[8..12], [0x78, 0x56, 0x34, 0x12]);
    assert_eq!(read16(&bytes, 8), 0x5678);
    assert_eq!(read64(&bytes, 8), 0xFFFF_FFFF_1234_5678);
}

#[test]
fn elements_of_a_shape() {
    assert_eq!(count(&[]), Some(1));
    assert_eq!(count(&[2, 3, 4]), Some(24));
    assert_eq!(count(&[5, 0]), Some(0));
    assert_eq!(count(&[usize::MAX, 1]), Some(usize::MAX));
    assert_eq!(count(&[usize::MAX, 2]), None);
}
