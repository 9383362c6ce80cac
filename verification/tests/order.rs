use chunkstats::order::{compare_keys, KeyOrder};

#[test]
fn equal_keys_are_the_same() {
    assert_eq!(compare_keys("", ""), KeyOrder::Same);
    assert_eq!(compare_keys("Oslo", "Oslo"), KeyOrder::Same);
}

#[test]
fn first_differing_character_decides() {
    assert_eq!(compare_keys("Oslo", "Tokyo"), KeyOrder::Before);
    assert_eq!(compare_keys("Tokyo", "Oslo"), KeyOrder::After);
    assert_eq!(compare_keys("abc", "abd"), KeyOrder::Before);
    assert_eq!(compare_keys("abd", "abc"), KeyOrder::After);
    assert_eq!(compare_keys("Zebra", "apple"), KeyOrder::Before);
}

#[test]
fn prefix_comes_first() {
    assert_eq!(compare_keys("", "a"), KeyOrder::Before);
    assert_eq!(compare_keys("a", ""), KeyOrder::After);
    assert_eq!(compare_keys("Tok", "Tokyo"), KeyOrder::Before);
    assert_eq!(compare_keys("Tokyo", "Tok"), KeyOrder::After);
}

#[test]
fn order_agrees_with_the_order_of_strings() {
    let keys = [
        "", " ", "A", "Z", "a", "ab", "abc", "b", "z", "~", "\u{7f}", "\u{80}", "é", "Zürich",
        "Zurich", "\u{7ff}", "\u{800}", "東京", "\u{ffff}", "\u{10000}", "\u{1F600}",
        "\u{10FFFF}", "a\u{10000}", "a\u{ffff}",
    ];
    for a in keys.iter() {
        for b in keys.iter() {
            let expected = if a < b {
                KeyOrder::Before
            } else if a == b {
                KeyOrder::Same
            } else {
                KeyOrder::After
            };
            assert_eq!(compare_keys(a, b), expected);
        }
    }
}
