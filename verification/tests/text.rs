use lxs_registry::text::{chars_contain, chars_of, lowercase_chars, str_eq_ignore_ascii_case, str_lt};

#[test]
fn chars_of_keeps_every_character() {
    assert_eq!(chars_of("aé✓"), vec!['a', 'é', '✓']);
    assert_eq!(chars_of(""), Vec::<char>::new());
}

#[test]
fn dictionary_order() {
    assert!(str_lt("a", "b"));
    assert!(str_lt("ab", "abc"));
    assert!(str_lt("", "a"));
    assert!(!str_lt("abc", "ab"));
    assert!(!str_lt("same", "same"));
    assert!(str_lt("Zebra", "apple"));
    assert!(str_lt("a-1", "ab-1"));
}

#[test]
fn ascii_case_is_ignored_only_for_ascii_letters() {
    assert!(str_eq_ignore_ascii_case("Media", "mEDIA"));
    assert!(str_eq_ignore_ascii_case("", ""));
    assert!(!str_eq_ignore_ascii_case("Media", "Medias"));
    assert!(!str_eq_ignore_ascii_case("É", "é"));
    assert!(str_eq_ignore_ascii_case("A-1", "a-1"));
}

#[test]
fn occurrence_of_a_run() {
    let hay = chars_of("photos and media");
    assert!(chars_contain(&hay, &chars_of("media")));
    assert!(chars_contain(&hay, &chars_of("")));
    assert!(chars_contain(&hay, &chars_of("photos and media")));
    assert!(!chars_contain(&hay, &chars_of("medias")));
    assert!(!chars_contain(&chars_of(""), &chars_of("a")));
}

#[test]
fn lowercase_is_unicode_lowercase() {
    assert_eq!(lowercase_chars("ÄbC"), vec!['ä', 'b', 'c']);
    assert_eq!(lowercase_chars("STORAGE"), chars_of("storage"));
    assert_eq!(lowercase_chars(""), Vec::<char>::new());
}
