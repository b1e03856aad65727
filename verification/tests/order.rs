use balanced_trees::order::{rank, Rank};

#[test]
fn rank_of_numbers() {
    assert_eq!(rank(&1u8, &2u8), Rank::Below);
    assert_eq!(rank(&2u8, &2u8), Rank::Same);
    assert_eq!(rank(&3u8, &2u8), Rank::Above);
    assert_eq!(rank(&-5i64, &-4i64), Rank::Below);
}

#[test]
fn rank_of_strings_and_pairs() {
    assert_eq!(rank(&"abc".to_string(), &"abd".to_string()), Rank::Below);
    assert_eq!(rank(&"b".to_string(), &"abd".to_string()), Rank::Above);
    assert_eq!(rank(&(1u8, 9u8), &(2u8, 0u8)), Rank::Below);
    assert_eq!(rank(&(2u8, 0u8), &(2u8, 0u8)), Rank::Same);
}
