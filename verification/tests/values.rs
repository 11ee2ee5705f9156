use strexpr::value::{chars_of, find_first, left_trim, minus, plus, right_trim};

fn s(text: &str) -> String {
    String::from(text)
}

#[test]
fn right_trim_drops_the_last_character() {
    assert_eq!(right_trim(&s("abc")), "ab");
    assert_eq!(right_trim(&s("a")), "");
}

#[test]
fn left_trim_drops_the_first_character() {
    assert_eq!(left_trim(&s("abc")), "bc");
    assert_eq!(left_trim(&s("a")), "");
}

#[test]
fn trims_count_characters_not_bytes() {
    assert_eq!(right_trim(&s("naïveé")), "naïve");
    assert_eq!(left_trim(&s("éa")), "a");
}

#[test]
fn plus_puts_left_before_right() {
    assert_eq!(plus(s("ab"), s("cd")), "abcd");
    assert_eq!(plus(s(""), s("cd")), "cd");
    assert_eq!(plus(s("ab"), s("")), "ab");
}

#[test]
fn minus_removes_the_first_occurrence_only() {
    assert_eq!(minus(s("abcabc"), s("bc")), "aabc");
    assert_eq!(minus(s("aaaa"), s("aa")), "aa");
    assert_eq!(minus(s("abc"), s("abc")), "");
    assert_eq!(minus(s("abc"), s("c")), "ab");
    assert_eq!(minus(s("abc"), s("a")), "bc");
}

#[test]
fn minus_leaves_left_where_right_is_absent() {
    assert_eq!(minus(s("xyz"), s("q")), "xyz");
    assert_eq!(minus(s("ab"), s("abc")), "ab");
    assert_eq!(minus(s(""), s("a")), "");
    assert_eq!(minus(s("abab"), s("ba ")), "abab");
}

#[test]
fn minus_of_the_empty_string_changes_nothing() {
    assert_eq!(minus(s("abc"), s("")), "abc");
    assert_eq!(minus(s(""), s("")), "");
}

#[test]
fn minus_agrees_with_the_standard_search() {
    let words = ["", "a", "b", "ab", "ba", "aab", "abab", "bbab", "abcabc", "é", "aéb", "éé"];
    for left in words {
        for right in words {
            let expected = match left.find(right) {
                Some(at) => format!("{}{}", &left[..at], &left[at + right.len()..]),
                None => left.to_string(),
            };
            assert_eq!(minus(s(left), s(right)), expected, "{left:?} - {right:?}");
        }
    }
}

#[test]
fn find_first_gives_the_least_position() {
    let hay: Vec<char> = "abcabc".chars().collect();
    let bc: Vec<char> = "bc".chars().collect();
    let cb: Vec<char> = "cb".chars().collect();
    let none: Vec<char> = Vec::new();
    assert_eq!(find_first(&hay, &bc), Some(1));
    assert_eq!(find_first(&hay, &cb), None);
    assert_eq!(find_first(&hay, &none), Some(0));
    assert_eq!(find_first(&hay, &hay), Some(0));
    assert_eq!(find_first(&bc, &hay), None);
    assert_eq!(find_first(&none, &none), Some(0));
}

#[test]
fn chars_of_lists_the_characters() {
    assert_eq!(chars_of("aéb"), vec!['a', 'é', 'b']);
    assert_eq!(chars_of(""), Vec::<char>::new());
}
