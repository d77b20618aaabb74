use mahjong_dp::parse_hand_str;
use mahjong_dp::Error;
use mahjong_dp::Tile;

#[test]
fn parse_reads_from_the_end() {
    let tiles = parse_hand_str("12m3z").unwrap();
    assert_eq!(tiles, vec![Tile::Jihai(2), Tile::Supai(0, 1), Tile::Supai(0, 0)]);
}

#[test]
fn parse_digits_without_a_suit_letter_are_honors() {
    let tiles = parse_hand_str("19").unwrap();
    assert_eq!(tiles, vec![Tile::Jihai(8), Tile::Jihai(0)]);
}

#[test]
fn parse_of_each_suit_letter() {
    assert_eq!(parse_hand_str("5m").unwrap(), vec![Tile::Supai(0, 4)]);
    assert_eq!(parse_hand_str("5p").unwrap(), vec![Tile::Supai(1, 4)]);
    assert_eq!(parse_hand_str("5s").unwrap(), vec![Tile::Supai(2, 4)]);
    assert_eq!(parse_hand_str("5z").unwrap(), vec![Tile::Jihai(4)]);
}

#[test]
fn parse_of_the_empty_string_is_empty() {
    assert_eq!(parse_hand_str("").unwrap(), Vec::<Tile>::new());
    assert_eq!(parse_hand_str("mpsz").unwrap(), Vec::<Tile>::new());
}

#[test]
fn parse_refuses_the_first_bad_character_from_the_end() {
    assert_eq!(parse_hand_str("1x2y3m"), Err(Error::InvalidCharacter('y')));
    assert_eq!(parse_hand_str("0m"), Err(Error::InvalidCharacter('0')));
    assert_eq!(parse_hand_str("1 2m"), Err(Error::InvalidCharacter(' ')));
}

#[test]
fn parse_of_a_full_hand() {
    let tiles = parse_hand_str("123m123p123s11122z").unwrap();
    assert_eq!(tiles.len(), 14);
    assert_eq!(tiles[0], Tile::Jihai(1));
    assert_eq!(tiles[13], Tile::Supai(0, 0));
}
