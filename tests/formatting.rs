use algo_examples::formatting::{is_emoji, on_screen_len};

#[test]
fn is_emoji_test() {
    "✨✅🚧❌".chars().for_each(|c| assert_eq!(is_emoji(c), true));
}

#[test]
fn emojis_len_and_count_test() {
    assert_eq!(on_screen_len("✨✅🚧❌"), 8);
    assert_eq!(on_screen_len("✨ ✅🚧❌"), 9);
    assert_eq!(on_screen_len("✨ ✅ 🚧❌"), 10);
    assert_eq!(on_screen_len("✨ ✅ 🚧 ❌"), 11);
    assert_eq!(on_screen_len("✨ ✅ 🚧 ❌ "), 12);

    let s = "✨ It works! Answer is 6 ✅";
    assert_eq!(on_screen_len(s), 27);

    let s = "🚧 Oh, shieeet, answer is 6 instead of 5 ❌";
    assert_eq!(on_screen_len(s), 43);
}

#[test]
fn plain_characters_are_one_column() {
    assert!(!is_emoji('a'));
    assert!(!is_emoji(' '));
    assert!(!is_emoji('\u{2000}'));
    assert_eq!(on_screen_len(""), 0);
    assert_eq!(on_screen_len("abc"), 3);
}

#[test]
fn emoji_range_edges() {
    assert!(is_emoji('\u{1F600}'));
    assert!(is_emoji('\u{1F64F}'));
    assert!(is_emoji('\u{24C2}'));
    assert!(!is_emoji('\u{24C1}'));
    assert!(is_emoji('\u{1F251}'));
    assert!(!is_emoji('\u{1F252}'));
    assert!(is_emoji('\u{1F6FF}'));
    assert!(!is_emoji('\u{1F700}'));
    assert_eq!(on_screen_len("a\u{1F600}b"), 4);
}
