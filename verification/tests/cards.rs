use ptcg_dragapult_bots::cards::{prize_value_from_meta, CardFacts, YamlAttack, YamlCard, YamlName};
use ptcg_dragapult_bots::deck::{DeckEntry, DeckList};

fn attack(position: u8, ja: &str) -> YamlAttack {
    YamlAttack { position, name: YamlName { ja: Some(ja.to_string()) } }
}

#[test]
fn meta_tags_to_prize() {
    assert_eq!(prize_value_from_meta(&["ex".to_string()]), 2);
    assert_eq!(prize_value_from_meta(&["mega".to_string()]), 3);
    assert_eq!(prize_value_from_meta(&[]), 1);
}

#[test]
fn unknown_slug_is_not_ex() {
    let facts = CardFacts::new();
    assert!(!facts.is_ex("whatever"));
    assert_eq!(facts.attack_index("whatever", "x"), None);
}

#[test]
fn with_card_builder() {
    let facts = CardFacts::new().with_card("opp-ex", 2, &["a", "b"]);
    assert!(facts.is_ex("opp-ex"));
    assert_eq!(facts.attack_index("opp-ex", "b"), Some(1));
}

#[test]
fn dragapult_ex_card_reads_back() {
    let card = YamlCard {
        slug: "dragapult-ex".to_string(),
        meta_tags: vec!["ex".to_string()],
        attacks: vec![attack(1, "ファントムダイブ"), attack(0, "ジェットヘッド")],
    };
    let facts = CardFacts::from_cards(vec![card]);
    assert!(facts.is_ex("dragapult-ex"));
    assert_eq!(facts.attack_index("dragapult-ex", "ジェットヘッド"), Some(0));
    assert_eq!(facts.attack_index("dragapult-ex", "ファントムダイブ"), Some(1));
    assert_eq!(facts.attack_index("dragapult-ex", "未知"), None);
}

#[test]
fn later_card_with_same_slug_wins() {
    let a = YamlCard { slug: "x".to_string(), meta_tags: vec![], attacks: vec![attack(0, "p")] };
    let b = YamlCard {
        slug: "x".to_string(),
        meta_tags: vec!["mega".to_string()],
        attacks: vec![attack(0, "q")],
    };
    let facts = CardFacts::from_cards(vec![a, b]);
    assert!(facts.is_ex("x"));
    assert_eq!(facts.attack_index("x", "p"), None);
    assert_eq!(facts.attack_index("x", "q"), Some(0));
}

#[test]
fn with_card_reads_back_and_leaves_others() {
    let facts = CardFacts::new()
        .with_card("a", 1, &["x", "y", "x"])
        .with_card("b", 3, &[])
        .with_card("a", 2, &["z", "x"]);
    assert!(facts.is_ex("a"));
    assert!(facts.is_ex("b"));
    assert_eq!(facts.attack_index("a", "x"), Some(1));
    assert_eq!(facts.attack_index("a", "y"), None);
    assert_eq!(facts.attack_index("b", "x"), None);
    let copy = facts.duplicate();
    assert_eq!(copy.attack_index("a", "z"), Some(0));
    assert!(!copy.is_ex("c"));
}

#[test]
fn deck_total_sums_counts() {
    let d = DeckList {
        name: Some("T".to_string()),
        cards: vec![
            DeckEntry { slug: "dreepy".to_string(), count: 4 },
            DeckEntry { slug: "fire-energy".to_string(), count: 4 },
        ],
    };
    assert_eq!(d.total(), 8);
    assert_eq!(DeckList { name: None, cards: vec![] }.total(), 0);
}
