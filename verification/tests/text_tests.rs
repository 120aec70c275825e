use gitdis::text::{
    chars_of, child_path_string, contains, decimal_string, dotted, ends_with, find_first,
    find_last, path_in_string, signed_decimal_string, split_text, starts_with, str_eq, str_lt,
};

fn chars(s: &str) -> Vec<char> {
    s.chars().collect()
}

#[test]
fn strings_are_ordered_as_std_orders_them() {
    let words = ["", "a", "A", "ab", "b", "a.b", "é", "z", "zz", "😀", "a\0", "\u{10FFFF}"];
    for a in words {
        for b in words {
            assert_eq!(str_lt(a, b), a < b, "{:?} {:?}", a, b);
            assert_eq!(str_eq(a, b), a == b, "{:?} {:?}", a, b);
        }
    }
}

#[test]
fn characters_of_a_string() {
    assert_eq!(chars_of("héllo"), vec!['h', 'é', 'l', 'l', 'o']);
    assert!(chars_of("").is_empty());
}

#[test]
fn beginnings_endings_and_parts() {
    assert!(starts_with(&chars("postmark"), &chars("postm")));
    assert!(starts_with(&chars("a"), &chars("")));
    assert!(!starts_with(&chars("po"), &chars("postm")));
    assert!(!starts_with(&chars("postmark"), &chars("ostm")));
    assert!(ends_with(&chars("precaution"), &chars("tion")));
    assert!(ends_with(&chars(""), &chars("")));
    assert!(!ends_with(&chars("ion"), &chars("tion")));
    assert!(!ends_with(&chars("precautions"), &chars("tion")));
    assert!(contains(&chars("/a/.git/x"), &chars("/.git/")));
    assert!(contains(&chars("abc"), &chars("")));
    assert!(contains(&chars("abc"), &chars("abc")));
    assert!(contains(&chars("aab"), &chars("ab")));
    assert!(!contains(&chars("/a/.git"), &chars("/.git/")));
    assert!(!contains(&chars(""), &chars("a")));
}

#[test]
fn positions_of_characters() {
    let s = chars("a/b/c");
    assert_eq!(find_first(&s, 0, 5, '/'), 1);
    assert_eq!(find_first(&s, 2, 5, '/'), 3);
    assert_eq!(find_first(&s, 4, 5, '/'), 5);
    assert_eq!(find_first(&s, 0, 1, '/'), 1);
    assert_eq!(find_first(&s, 0, 0, '/'), 0);
    assert_eq!(find_last(&s, 0, 5, '/'), 4);
    assert_eq!(find_last(&s, 0, 3, '/'), 2);
    assert_eq!(find_last(&s, 0, 1, '/'), 0);
    assert_eq!(find_last(&s, 2, 3, '/'), 2);
}

#[test]
fn numerals() {
    assert_eq!(decimal_string(0), "0");
    assert_eq!(decimal_string(7), "7");
    assert_eq!(decimal_string(10), "10");
    assert_eq!(decimal_string(1234567890), "1234567890");
    assert_eq!(decimal_string(usize::MAX), usize::MAX.to_string());
    assert_eq!(signed_decimal_string(0), "0");
    assert_eq!(signed_decimal_string(-40), "-40");
    assert_eq!(signed_decimal_string(i32::MAX), i32::MAX.to_string());
    assert_eq!(signed_decimal_string(i32::MIN), i32::MIN.to_string());
}

#[test]
fn paths() {
    assert_eq!(child_path_string("", "a"), "a");
    assert_eq!(child_path_string("a", "b"), "a.b");
    assert_eq!(child_path_string("a", ""), "a.");
    assert_eq!(child_path_string("", ""), "");
    assert_eq!(path_in_string("dir", "name"), "dir/name");
    assert_eq!(path_in_string("", ""), "/");
    assert_eq!(dotted("a/b/c", 0, 5), "a.b.c");
    assert_eq!(dotted("a/b/c", 1, 4), ".b.");
    assert_eq!(dotted("//", 0, 2), "..");
    assert_eq!(dotted("abc", 1, 1), "");
    assert_eq!(dotted("é/ü", 0, 3), "é.ü");
}

#[test]
fn parts_of_a_text() {
    assert_eq!(split_text("a/b/c", '/'), vec!["a", "b", "c"]);
    assert_eq!(split_text("", '/'), vec![""]);
    assert_eq!(split_text("/", '/'), vec!["", ""]);
    assert_eq!(split_text("a//b/", '/'), vec!["a", "", "b", ""]);
    assert_eq!(split_text("abc", '/'), vec!["abc"]);
    assert_eq!(split_text("A\0p\0", '\0'), vec!["A", "p", ""]);
    for s in ["x/y", "//", "é/ü/", "plain"] {
        let expected: Vec<String> = s.split('/').map(|p| p.to_string()).collect();
        assert_eq!(split_text(s, '/'), expected);
    }
}
