use mahjong_dp::{Dimension, Metrics, Tile, NUM_DIMENSIONS, NUM_HAND13, NUM_HAND14, NUM_ROUNDS};

#[test]
fn dimension_ids_follow_the_fixed_order() {
    assert_eq!(Dimension::Shuntsu(Tile::Supai(0, 0)).to_id(), 0);
    assert_eq!(Dimension::Shuntsu(Tile::Supai(2, 6)).to_id(), 20);
    assert_eq!(Dimension::Kotsu(Tile::Supai(0, 0)).to_id(), 21);
    assert_eq!(Dimension::Kotsu(Tile::Supai(2, 8)).to_id(), 47);
    assert_eq!(Dimension::Kotsu(Tile::Jihai(0)).to_id(), 48);
    assert_eq!(Dimension::Kotsu(Tile::Jihai(4)).to_id(), 52);
    assert_eq!(Dimension::Toitsu(Tile::Supai(0, 0)).to_id(), 53);
    assert_eq!(Dimension::Toitsu(Tile::Supai(2, 8)).to_id(), 79);
    assert_eq!(Dimension::Toitsu(Tile::Jihai(0)).to_id(), 80);
    assert_eq!(Dimension::Toitsu(Tile::Jihai(4)).to_id(), 84);
    assert_eq!(Dimension::Kokushi.to_id(), 85);
}

#[test]
fn dimensions_and_ids_correspond_one_to_one() {
    assert_eq!(Dimension::len(), 86);
    assert_eq!(NUM_DIMENSIONS, 86);
    for id in 0..86usize {
        assert_eq!(Dimension::from_id(id).to_id() as usize, id);
    }
    assert_eq!(Dimension::from_id(8), Dimension::Shuntsu(Tile::Supai(1, 1)));
    assert_eq!(Dimension::from_id(51), Dimension::Kotsu(Tile::Jihai(3)));
    assert_eq!(Dimension::from_id(85), Dimension::Kokushi);
}

#[test]
fn all_dimensions_come_in_id_order() {
    let all = Dimension::all_dimensions();
    for (id, d) in all.iter().enumerate() {
        assert_eq!(*d, Dimension::from_id(id));
    }
}

#[test]
fn metrics_start_at_zero() {
    let mut m = Metrics::new();
    assert_eq!(m.values, [0; 86]);
    assert_eq!(Metrics::default(), m);
    m.set(Dimension::Kokushi, 5);
    m.set(Dimension::Shuntsu(Tile::Supai(0, 1)), 7);
    assert_eq!(m.get(Dimension::Kokushi), 5);
    assert_eq!(m.values[85], 5);
    assert_eq!(m.values[1], 7);
    assert_eq!(m.get(Dimension::Kotsu(Tile::Jihai(0))), 0);
}

#[test]
fn sizes_of_the_tables() {
    assert_eq!(NUM_ROUNDS, 18);
    assert_eq!(NUM_HAND13, 322_565_293);
    assert_eq!(NUM_HAND14, 923_597_122);
}

#[test]
fn metrics_convert_to_and_from_their_values() {
    let mut values = [0u32; 86];
    values[3] = 9;
    let m = Metrics::from(values);
    assert_eq!(m.values[3], 9);
    let back: [u32; 86] = m.into();
    assert_eq!(back, values);
}
