use owo_bot::text::{contains_exec, parse_id_exec, push_decimal, replace_all_exec};

fn v(s: &str) -> Vec<char> {
    s.chars().collect()
}

fn s(v: Vec<char>) -> String {
    v.into_iter().collect()
}

#[test]
fn replace_matches_std() {
    for (hay, pat, rep) in [("aaa", "aa", "b"), ("abc", "", "-"), ("", "", "x"), ("abab", "ab", ""), ("xyz", "q", "r"), ("héé", "é", "e")] {
        assert_eq!(s(replace_all_exec(&v(hay), &v(pat), &v(rep))), hay.replace(pat, rep));
    }
}

#[test]
fn substring_search() {
    assert!(contains_exec(&v("hello sigma!"), &v("sigma")));
    assert!(!contains_exec(&v("sigm"), &v("sigma")));
    assert!(contains_exec(&v(""), &v("")));
}

#[test]
fn ids_parse_like_discord_ids() {
    assert_eq!(parse_id_exec("42"), Some(42));
    assert_eq!(parse_id_exec("+42"), Some(42));
    assert_eq!(parse_id_exec("0"), None);
    assert_eq!(parse_id_exec(""), None);
    assert_eq!(parse_id_exec("+"), None);
    assert_eq!(parse_id_exec("-1"), None);
    assert_eq!(parse_id_exec("12a"), None);
    assert_eq!(parse_id_exec("18446744073709551615"), Some(u64::MAX));
    assert_eq!(parse_id_exec("18446744073709551616"), None);
    assert_eq!(parse_id_exec("007"), Some(7));
}

#[test]
fn rendered_ids_parse_back() {
    for n in [1u64, 9, 10, 1_271_514_040_786_747_495, u64::MAX] {
        let mut out = Vec::new();
        push_decimal(&mut out, n);
        let rendered: String = out.into_iter().collect();
        assert_eq!(rendered, n.to_string());
        assert_eq!(parse_id_exec(&rendered), Some(n));
    }
}
