use vardiff::table::Table;
use vardiff::text::{
    append, append_decimal, chars_of, contains, equals, find, is_space, join, lines, part, standing,
    starts_with, string_of, strip_prefixes, trim, Standing,
};

fn text(chars: &[char]) -> String {
    string_of(&chars.to_vec())
}

#[test]
fn white_space_is_that_of_unicode() {
    for n in 0..=0x10ffffu32 {
        if let Some(c) = char::from_u32(n) {
            assert_eq!(is_space(c), c.is_whitespace(), "{n:x}");
        }
    }
}

#[test]
fn strings_and_characters() {
    for s in ["", "a", "±50% step", "a\u{10ffff}b"] {
        assert_eq!(chars_of(s), s.chars().collect::<Vec<char>>());
        assert_eq!(text(&chars_of(s)), s);
    }
    assert_eq!(text(&part(&chars_of("abcdef"), 2, 5)), "cde");
    assert_eq!(text(&part(&chars_of("abcdef"), 3, 3)), "");
}

#[test]
fn trimming_takes_white_space_off_both_ends() {
    for s in ["", " ", " a ", "\t a b\u{3000}\r\n", "a", "\u{200b} a", " \u{85}x\u{a0}"] {
        assert_eq!(text(&trim(&chars_of(s))), s.trim(), "{s:?}");
    }
}

#[test]
fn parts_of_texts() {
    let s = chars_of("spm_6.step_minus_50");
    assert!(starts_with(&s, "spm_6."));
    assert!(starts_with(&s, ""));
    assert!(!starts_with(&s, "spm_60"));
    assert!(!starts_with(&chars_of("spm"), "spm_6"));
    assert!(contains(&s, "step_minus_50"));
    assert!(contains(&s, "spm"));
    assert!(contains(&s, ""));
    assert!(!contains(&s, "step_plus_50"));
    assert!(!contains(&chars_of("ab"), "abc"));
    assert!(equals(&chars_of("abc"), "abc"));
    assert!(!equals(&chars_of("abc"), "abd"));
    assert!(!equals(&chars_of("abc"), "ab"));
    assert_eq!(find(&s, 0, '.'), 5);
    assert_eq!(find(&s, 6, '_'), 10);
    assert_eq!(find(&s, 0, '='), s.len());
}

#[test]
fn prefixes_are_removed_as_often_as_they_occur() {
    for s in ["cell.a", "cell.cell.a", "a.cell.", "cell", "cell.", ""] {
        assert_eq!(text(&strip_prefixes(&chars_of(s), "cell.")), s.trim_start_matches("cell."));
    }
}

#[test]
fn lines_end_as_they_do_in_files() {
    for s in ["", "a", "a\n", "a\r\nb", "a\n\nb\r\n", "\n", "\r", "a\rb\n", "a\r", "x\r\r\ny"] {
        let got: Vec<String> = lines(s).iter().map(|l| text(l)).collect();
        let want: Vec<&str> = s.lines().collect();
        assert_eq!(got, want, "{s:?}");
    }
}

#[test]
fn texts_are_ordered_as_strings_are() {
    let all = ["", "a", "aa", "ab", "b", "spm_12.x", "spm_6.x", "ä", "\u{ffff}", "\u{10000}", "Z"];
    for a in all {
        for b in all {
            let want = if a < b {
                Standing::Before
            } else if a == b {
                Standing::Same
            } else {
                Standing::After
            };
            assert_eq!(standing(a, b), want, "{a:?} {b:?}");
        }
    }
}

#[test]
fn joining_and_appending() {
    let parts: Vec<String> = ["a", "", "c"].iter().map(|s| s.to_string()).collect();
    assert_eq!(join(&parts, "; "), parts.join("; "));
    assert_eq!(join(&Vec::new(), "; "), "");
    assert_eq!(join(&vec!["x".to_string()], "; "), "x");
    let mut s = "±".to_string();
    append(&mut s, "50%");
    assert_eq!(s, "±50%");
    for n in [0u32, 7, 10, 60, 1200, 4294967295, 1000000000] {
        let mut s = "n=".to_string();
        append_decimal(&mut s, n);
        assert_eq!(s, format!("n={n}"));
    }
}

#[test]
fn tables_keep_their_keys_in_order() {
    let mut table: Table<u32> = Table::new();
    for (i, key) in ["m", "c", "x", "c", "a", "z", "m"].iter().enumerate() {
        table.insert(key.to_string(), i as u32);
    }
    let held: Vec<(String, u32)> = table.entries.iter().map(|e| (e.0.clone(), e.1)).collect();
    let want: Vec<(String, u32)> = [("a", 4), ("c", 3), ("m", 6), ("x", 2), ("z", 5)]
        .iter()
        .map(|(k, v)| (k.to_string(), *v))
        .collect();
    assert_eq!(held, want);
    assert_eq!(table.get("x"), Some(&2));
    assert_eq!(table.get("y"), None);
    assert_eq!(table.find("y"), (false, 4));
    assert_eq!(table.find("z"), (true, 4));
    assert_eq!(table.remove("c"), Some(3));
    assert_eq!(table.remove("c"), None);
    assert_eq!(table.entries.len(), 4);
}
