use arcanum::collector::counts::EngineCounts;
use arcanum::order::{sort_order, text_less, SortKey};
use arcanum::text::{
    append, chars_of, contains, copy_range, decimal_of, ends_with, find_from, is_whitespace,
    last_segment_of, parse_decimal, same_chars, split_lines, split_once_at, split_once_char,
    split_words, strip_prefix, trim_chars,
};

fn chars(s: &str) -> Vec<char> {
    s.chars().collect()
}

fn text(v: &[char]) -> String {
    v.iter().collect()
}

#[test]
fn trim_removes_unicode_whitespace() {
    assert_eq!(text(&trim_chars(&chars("  \t abc \n"))), "abc");
    assert_eq!(text(&trim_chars(&chars("\u{a0}x\u{3000}"))), "x");
    assert_eq!(text(&trim_chars(&chars("   "))), "");
}

#[test]
fn lines_follow_str_lines() {
    let cases = ["", "a", "a\n", "a\nb", "a\r\nb\r\n", "a\n\nb", "a\r", "\n"];
    for c in cases {
        let got: Vec<String> = split_lines(&chars(c)).iter().map(|l| text(l)).collect();
        let want: Vec<String> = c.lines().map(|l| l.to_string()).collect();
        assert_eq!(got, want, "input {c:?}");
    }
}

#[test]
fn words_follow_split_whitespace() {
    let cases = ["", "  ", "cpu  1 2 3", " a\tb\u{2003}c  "];
    for c in cases {
        let got: Vec<String> = split_words(&chars(c)).iter().map(|w| text(w)).collect();
        let want: Vec<String> = c.split_whitespace().map(|w| w.to_string()).collect();
        assert_eq!(got, want, "input {c:?}");
    }
}

#[test]
fn decimal_parsing_follows_str_parse() {
    let cases = ["0", "42", "+7", "+", "", "-1", "12a", "18446744073709551615", "18446744073709551616", "007"];
    for c in cases {
        assert_eq!(parse_decimal(&chars(c), u64::MAX), c.parse::<u64>().ok(), "input {c:?}");
        assert_eq!(
            parse_decimal(&chars(c), u32::MAX as u64),
            c.parse::<u32>().ok().map(|v| v as u64),
            "input {c:?}"
        );
    }
    assert_eq!(parse_decimal(&chars("4294967296"), u32::MAX as u64), None);
}

#[test]
fn split_once_finds_first_separator() {
    let (k, v) = split_once_char(&chars("drm-pdev:\t0000:03:00.0"), ':').unwrap();
    assert_eq!(text(&k), "drm-pdev");
    assert_eq!(text(&v), "\t0000:03:00.0");
    assert!(split_once_char(&chars("no separator"), ':').is_none());
    let (a, b) = split_once_at(&chars("E223  Battlemage  G31"), &chars("  ")).unwrap();
    assert_eq!(text(&a), "E223");
    assert_eq!(text(&b), "Battlemage  G31");
    assert!(split_once_at(&chars("a b"), &chars("  ")).is_none());
}

#[test]
fn substring_search_and_segments() {
    assert!(contains(&chars("drm-driver:\ti915"), &chars("drm-driver")));
    assert!(!contains(&chars("pos: 0"), &chars("drm-driver")));
    assert_eq!(text(&last_segment_of(&chars("/dev/dri/renderD128"), '/')), "renderD128");
    assert_eq!(text(&last_segment_of(&chars("renderD129"), '/')), "renderD129");
    assert_eq!(text(&last_segment_of(&chars("/dev/dri/"), '/')), "");
}

#[test]
fn decimal_formatting() {
    for n in [0u64, 7, 10, 1234, u64::MAX] {
        assert_eq!(text(&decimal_of(n)), n.to_string());
    }
    assert_eq!(text(&chars_of("héllo")), "héllo");
}

#[test]
fn small_text_helpers() {
    let mut r = chars("ab");
    append(&mut r, &chars("cd"));
    assert_eq!(text(&r), "abcd");
    assert_eq!(text(&copy_range(&chars("hello"), 1, 4)), "ell");
    assert!(ends_with(&chars("temp1_input"), &chars("_input")));
    assert!(!ends_with(&chars("temp1_label"), &chars("_input")));
    assert_eq!(find_from(&chars("a_b_c"), '_', 2), 3);
    assert_eq!(find_from(&chars("abc"), '_', 0), 3);
    assert!(is_whitespace('\u{2003}'));
    assert!(!is_whitespace('x'));
    assert!(same_chars(&chars("xe"), &chars("xe")));
    assert!(!same_chars(&chars("xe"), &chars("x")));
    assert_eq!(strip_prefix(&chars("card3"), &chars("card")).map(|v| text(&v)), Some("3".to_string()));
    assert!(strip_prefix(&chars("renderD1"), &chars("card")).is_none());
}

#[test]
fn text_order_and_stable_sort() {
    assert!(text_less(&chars("energy"), &chars("fan")));
    assert!(text_less(&chars("pkg"), &chars("pkg2")));
    assert!(!text_less(&chars("vram"), &chars("vram")));
    assert!(!text_less(&chars("b"), &chars("a")));
    let key = |major: u64, t: &str| SortKey { major, minor: 0, text: chars(t) };
    let keys = vec![key(2, "b"), key(1, "z"), key(2, "a"), key(1, "z"), key(0, "q")];
    assert_eq!(sort_order(&keys), vec![4, 1, 3, 2, 0]);
}

#[test]
fn engine_counts_keep_one_entry_per_engine() {
    let mut c = EngineCounts::new();
    c.insert(chars("rcs"), 5);
    c.insert(chars("rcs"), 3);
    assert_eq!(c.get(&chars("rcs")), Some(3));
    c.insert_max(chars("rcs"), 2);
    assert_eq!(c.get(&chars("rcs")), Some(3));
    c.insert_max(chars("rcs"), 9);
    c.insert_max(chars("vcs"), 1);
    assert_eq!(c.get(&chars("rcs")), Some(9));
    assert_eq!(c.get(&chars("vcs")), Some(1));
    assert_eq!(c.pairs().len(), 2);
    assert_eq!(c.get(&chars("bcs")), None);
}
