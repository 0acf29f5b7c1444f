use redirectionio::radix_tree::{RegexItem, RegexRadixTree};

#[test]
fn test_find_no_rule() {
    let tree: RegexRadixTree = RegexRadixTree::new();

    assert_eq!(tree.find("tata").is_some(), false);
    assert_eq!(tree.find("test").is_some(), false);
}

#[test]
fn test_find_one_rule() {
    let item1 = RegexItem::new("tata".to_string());
    let mut tree = RegexRadixTree::new();

    tree.insert(item1);

    assert_eq!(tree.find("tata").is_some(), true);
    assert_eq!(tree.find("test").is_some(), false);
}

#[test]
fn test_find_emoji_rule_regex() {
    let mut tree = RegexRadixTree::new();

    tree.insert(RegexItem::new("/emoji/(([\\p{Ll}]|\\-|➡️|🤘)+?)".to_string()));

    assert_eq!(tree.find("/emoji/test").is_some(), true);
    assert_eq!(tree.find("/emoji/➡️").is_some(), true);
    assert_eq!(tree.find("/emoji/🤘").is_some(), true);
    assert_eq!(tree.find("/not-emoji").is_some(), false);
}

#[test]
fn test_find_multiple_rule() {
    let mut tree = RegexRadixTree::new();

    tree.insert(RegexItem::new("/a/b".to_string()));
    tree.insert(RegexItem::new("/a/b/c".to_string()));
    tree.insert(RegexItem::new("/a/b/d".to_string()));
    tree.insert(RegexItem::new("/b/a".to_string()));

    assert_eq!(tree.find("/a/b").is_some(), true);
    assert_eq!(tree.find("/a/b/c").is_some(), true);
    assert_eq!(tree.find("/a/b/d").is_some(), true);
    assert_eq!(tree.find("/b/a").is_some(), true);

    assert_eq!(tree.find("/b").is_some(), false);
    assert_eq!(tree.find("/a").is_some(), false);
    assert_eq!(tree.find("/no-match").is_some(), false);
}

#[test]
fn test_find_rule_with_regex() {
    let mut tree = RegexRadixTree::new();

    tree.insert(RegexItem::new("/a/(.+?)/c".to_string()));

    assert_eq!(tree.find("/a/b/c").is_some(), true);
    assert_eq!(tree.find("/a/b/d").is_some(), false);
    assert_eq!(tree.find("/a/b").is_some(), false);
}

#[test]
fn test_find_multiple_rule_with_regex() {
    let mut tree = RegexRadixTree::new();

    tree.insert(RegexItem::new("/a/(.+?)/c".to_string()));
    tree.insert(RegexItem::new("/a/(.+?)/b".to_string()));

    assert_eq!(tree.find("/a/b/c").is_some(), true);
    assert_eq!(tree.find("/a/b/d").is_some(), false);
    assert_eq!(tree.find("/a/b").is_some(), false);
    assert_eq!(tree.find("/a/b/b").is_some(), true);
    assert_eq!(tree.find("/a/c/b").is_some(), true);
    assert_eq!(tree.find("/a/c/d").is_some(), false);
    assert_eq!(tree.find("/a/c/").is_some(), false);
}

#[test]
fn test_find_multiple_rule_after_remove() {
    let mut tree = RegexRadixTree::new();

    tree.insert(RegexItem::new("/a/b".to_string()));
    tree.insert(RegexItem::new("/a/b/c".to_string()));
    tree.insert(RegexItem::new("/a/b/d".to_string()));
    tree.insert(RegexItem::new("/b/a".to_string()));

    assert_eq!(tree.find("/a/b").is_some(), true);
    assert_eq!(tree.find("/a/b/c").is_some(), true);

    tree.remove("/a/b");

    assert_eq!(tree.find("/a/b").is_some(), false);
    assert_eq!(tree.find("/a/b/c").is_some(), true);
}

#[test]
fn test_find_emoji_weird_rule_regex() {
    let mut tree = RegexRadixTree::new();

    tree.insert(RegexItem::new("/string/from/(?:)".to_string()));
    tree.insert(RegexItem::new("/string\\-uppercase/from/(?:([\\p{Lu}\\p{Lt}])+?)".to_string()));
    tree.insert(RegexItem::new(
        "/string\\-ending/from/(?:([\\p{Ll}]|\\-)+?JOHN\\-SNOW)".to_string(),
    ));
    tree.insert(RegexItem::new("/string\\-lowercase/from/(?:([\\p{Ll}])+?)".to_string()));
    tree.insert(RegexItem::new(
        "/string\\-starting/from/(?:JOHN\\-SNOW([\\p{Ll}]|\\-)+?)".to_string(),
    ));
    tree.insert(RegexItem::new(
        "/string\\-lowercase\\-uppercase\\-digits/from/(?:([\\p{Ll}\\p{Lu}\\p{Lt}0-9])+?)"
            .to_string(),
    ));
    tree.insert(RegexItem::new(
        "/string\\-lowercase\\-uppercase\\-digits\\-allowPercentEncodedChars\\-specificCharacters/from/(?:([\\p{Ll}\\p{Lu}\\p{Lt}0-9]|\\-|\\.|\\(|\\)|%[0-9A-Z]{2})+?)"
            .to_string(),
    ));
    tree.insert(RegexItem::new(
        "/string\\-starting\\-shit/from/(?:\\(\\[A\\-Z\\]\\)\\+([\\p{Ll}]|\\-)+?)".to_string(),
    ));
    tree.insert(RegexItem::new(
        "/string\\-lowercase\\-specificCharacters\\-emoji/from/(?:([\\p{Ll}]|\\-|🤘)+?)"
            .to_string(),
    ));
    tree.insert(RegexItem::new(
        "/string\\-lowercase\\-digits\\-allowPercentEncodedChars/from/(?:([\\p{Ll}0-9]|%[0-9A-Z]{2})+?)"
            .to_string(),
    ));
    tree.insert(RegexItem::new(
        "/string\\-allowLowercaseAlphabet\\-specificCharacters\\-starting\\-containing/from/(?:JOHN\\-SNOW(([\\p{Ll}]|\\-)*?L33T([\\p{Ll}]|\\-)*?)+?)"
            .to_string(),
    ));
    tree.insert(RegexItem::new(
        "/string\\-allowPercentEncodedChars/from/(?:(%[0-9A-Z]{2})+?)".to_string(),
    ));
    tree.insert(RegexItem::new("/string\\-containing/from/(?:(L33T)+?)".to_string()));
    tree.insert(RegexItem::new(
        "/string\\-specificCharacters/from/(?:(\\.|\\-|\\+|_|/)+?)".to_string(),
    ));
    tree.insert(RegexItem::new("/string\\-specificCharacters\\-other/from/(?:(a|\\-|z)+?)".to_string()));

    assert_eq!(tree.find("/string-lowercase/from/coucou").is_some(), true);
    assert_eq!(
        tree.find("/string-lowercase-specificCharacters-emoji/from/you-rock-dude-🤘").is_some(),
        true
    );
}
