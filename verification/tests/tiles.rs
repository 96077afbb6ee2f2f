use blizzard_basin::tiles::{
    tile_glyph, ObstacleType, COLLIDES_FLAG, EAST_FLAG, NORTH_FLAG, SOUTH_FLAG, WEST_FLAG,
};

#[test]
fn catalog_has_six_kinds_with_their_symbols_and_flags() {
    let kinds = [
        (ObstacleType::Empty, '.', 0x00u8),
        (ObstacleType::Wall, '#', 0x80u8),
        (ObstacleType::North, '^', 0x81u8),
        (ObstacleType::East, '>', 0x82u8),
        (ObstacleType::South, 'v', 0x84u8),
        (ObstacleType::West, '<', 0x88u8),
    ];
    for (kind, symbol, flags) in kinds {
        assert_eq!(kind.tile_char(), symbol);
        assert_eq!(kind.tile_flags(), flags);
        assert_eq!(ObstacleType::from_char(symbol), Some(kind));
    }
}

#[test]
fn flag_constants_are_distinct_bits() {
    assert_eq!(COLLIDES_FLAG, 0b1000_0000);
    assert_eq!(NORTH_FLAG, 0b0000_0001);
    assert_eq!(EAST_FLAG, 0b0000_0010);
    assert_eq!(SOUTH_FLAG, 0b0000_0100);
    assert_eq!(WEST_FLAG, 0b0000_1000);
}

#[test]
fn characters_outside_the_catalog_spell_no_kind() {
    for c in ['x', ' ', 'E', 'V', '2', '\r', '\0', 'é'] {
        assert_eq!(ObstacleType::from_char(c), None);
    }
}

#[test]
fn glyph_of_each_catalog_tile_is_its_symbol() {
    assert_eq!(tile_glyph(0x00), '.');
    assert_eq!(tile_glyph(0x80), '#');
    assert_eq!(tile_glyph(0x81), '^');
    assert_eq!(tile_glyph(0x82), '>');
    assert_eq!(tile_glyph(0x84), 'v');
    assert_eq!(tile_glyph(0x88), '<');
}

#[test]
fn glyph_counts_overlapping_blizzards() {
    assert_eq!(tile_glyph(0x80 | 0x01 | 0x02), '2');
    assert_eq!(tile_glyph(0x80 | 0x01 | 0x04), '2');
    assert_eq!(tile_glyph(0x80 | 0x02 | 0x08), '2');
    assert_eq!(tile_glyph(0x80 | 0x04 | 0x08), '2');
    assert_eq!(tile_glyph(0x80 | 0x01 | 0x02 | 0x04), '3');
    assert_eq!(tile_glyph(0x80 | 0x02 | 0x04 | 0x08), '3');
    assert_eq!(tile_glyph(0x80 | 0x0f), '4');
}

#[test]
fn glyph_of_a_tile_that_does_not_collide_is_a_dot() {
    assert_eq!(tile_glyph(0x01), '.');
    assert_eq!(tile_glyph(0x0f), '.');
    assert_eq!(tile_glyph(0x70), '.');
}
