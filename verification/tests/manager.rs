use gba_palette::codec::Color;
use gba_palette::manager::{Character, PaletteError, PaletteManager};

fn hero(offset: u64) -> Character {
    Character { name: String::from("Hero"), palette_offset: offset }
}

/// 32 bytes holding the 16 little-endian words 1, 2, ..., 16.
fn incrementing_block() -> Vec<u8> {
    let mut bytes = Vec::new();
    for word in 1u8..=16 {
        bytes.push(word);
        bytes.push(0);
    }
    bytes
}

#[test]
fn store_then_load_returns_the_words() {
    let mut manager = PaletteManager::new(Vec::new());
    let words: Vec<i32> = vec![5, 10, 15];
    manager.store_palette_i32(String::from("Hero"), words.clone());
    assert_eq!(manager.load_palette_i32(String::from("Hero")), Ok(words));
}

#[test]
fn store_overwrites_silently() {
    let mut manager = PaletteManager::new(Vec::new());
    manager.store_palette_i32(String::from("Hero"), vec![1, 2, 3]);
    manager.store_palette_i32(String::from("Hero"), vec![7]);
    assert_eq!(manager.load_palette_i32(String::from("Hero")), Ok(vec![7]));
}

#[test]
fn load_missing_is_not_found() {
    let manager = PaletteManager::new(Vec::new());
    assert_eq!(
        manager.load_palette_i32(String::from("Hero")),
        Err(PaletteError::NotFound)
    );
}

#[test]
fn store_colors_encodes_each_entry() {
    let mut manager = PaletteManager::new(Vec::new());
    let colors = vec![
        Color { r: 255, g: 255, b: 255 },
        Color { r: 8, g: 0, b: 0 },
        Color { r: 0, g: 0, b: 0 },
    ];
    manager.store_palette_colors(String::from("Hero"), colors);
    assert_eq!(
        manager.load_palette_i32(String::from("Hero")),
        Ok(vec![0x7fff, 1, 0])
    );
}

#[test]
fn load_colors_decodes_each_entry() {
    let mut manager = PaletteManager::new(Vec::new());
    manager.store_palette_i32(String::from("Hero"), vec![1, 0x20, 0x7fff]);
    let colors = manager.load_palette_colors(String::from("Hero")).unwrap();
    assert_eq!(
        colors,
        vec![
            Color { r: 8, g: 0, b: 0 },
            Color { r: 0, g: 8, b: 0 },
            Color { r: 248, g: 248, b: 248 },
        ]
    );
}

#[test]
fn load_colors_missing_is_not_found() {
    let mut manager = PaletteManager::new(Vec::new());
    assert_eq!(
        manager.load_palette_colors(String::from("Hero")),
        Err(PaletteError::NotFound)
    );
}

#[test]
fn read_palette_composes_byte_swapped_words() {
    // storage holds at offset 0 the 32 bytes 01 00 02 00 ... (16 pairs
    // incrementing); reading yields the packed words 1 through 16
    let mut manager = PaletteManager::new(incrementing_block());
    assert_eq!(manager.read_palette(&hero(0)), Ok(()));
    let expected: Vec<i32> = (1..=16).collect();
    assert_eq!(manager.load_palette_i32(String::from("Hero")), Ok(expected));
}

#[test]
fn write_reproduces_the_original_bytes() {
    let original = incrementing_block();
    let mut manager = PaletteManager::new(original.clone());
    assert_eq!(manager.read_palette(&hero(0)), Ok(()));
    assert_eq!(manager.write_palette(&hero(0)), Ok(()));
    assert_eq!(manager.rom_bytes(), &original);
}

#[test]
fn write_then_read_reproduces_the_words() {
    let mut manager = PaletteManager::new(vec![0u8; 64]);
    let words: Vec<i32> = vec![
        0x7fff, 0x1f, 0x3e0, 0x7c00, 1, 2, 3, 4, 5, 6, 7, 8, 9, 10, 11, 12,
    ];
    manager.store_palette_i32(String::from("Hero"), words.clone());
    assert_eq!(manager.write_palette(&hero(16)), Ok(()));

    let mut fresh = PaletteManager::new(manager.rom_bytes().clone());
    assert_eq!(fresh.read_palette(&hero(16)), Ok(()));
    assert_eq!(fresh.load_palette_i32(String::from("Hero")), Ok(words));
}

#[test]
fn read_palette_offset_past_end_fails() {
    let mut manager = PaletteManager::new(incrementing_block());
    assert_eq!(manager.read_palette(&hero(1)), Err(PaletteError::OutOfBounds));
    assert_eq!(manager.read_palette(&hero(1000)), Err(PaletteError::OutOfBounds));
    // nothing was stored by the failing reads
    assert_eq!(
        manager.load_palette_i32(String::from("Hero")),
        Err(PaletteError::NotFound)
    );
}

#[test]
fn read_palettes_empty_roster_is_a_no_op() {
    let mut manager = PaletteManager::new(incrementing_block());
    assert_eq!(manager.read_palettes(&Vec::new()), Ok(()));
    assert_eq!(
        manager.load_palette_i32(String::from("Hero")),
        Err(PaletteError::NotFound)
    );
}

#[test]
fn read_palettes_reads_every_descriptor() {
    let mut bytes = incrementing_block();
    bytes.extend(vec![0xffu8; 32]);
    let mut manager = PaletteManager::new(bytes);
    let roster = vec![hero(0), Character { name: String::from("Rival"), palette_offset: 32 }];
    assert_eq!(manager.read_palettes(&roster), Ok(()));
    let expected: Vec<i32> = (1..=16).collect();
    assert_eq!(manager.load_palette_i32(String::from("Hero")), Ok(expected));
    assert_eq!(
        manager.load_palette_i32(String::from("Rival")),
        Ok(vec![0xffffi32; 16])
    );
}

#[test]
fn read_palettes_stops_at_first_failure_keeping_earlier_reads() {
    let mut manager = PaletteManager::new(incrementing_block());
    let roster = vec![
        hero(0),
        Character { name: String::from("Rival"), palette_offset: 1000 },
        Character { name: String::from("Sage"), palette_offset: 0 },
    ];
    assert_eq!(manager.read_palettes(&roster), Err(PaletteError::OutOfBounds));
    // the palette read before the failing descriptor is intact
    let expected: Vec<i32> = (1..=16).collect();
    assert_eq!(manager.load_palette_i32(String::from("Hero")), Ok(expected));
    // the failing descriptor and the ones after it stored nothing
    assert_eq!(
        manager.load_palette_i32(String::from("Rival")),
        Err(PaletteError::NotFound)
    );
    assert_eq!(
        manager.load_palette_i32(String::from("Sage")),
        Err(PaletteError::NotFound)
    );
}

#[test]
fn write_palette_missing_is_not_found() {
    let mut manager = PaletteManager::new(incrementing_block());
    assert_eq!(manager.write_palette(&hero(0)), Err(PaletteError::NotFound));
}

#[test]
fn write_palette_past_end_fails_and_leaves_rom_alone() {
    let original = incrementing_block();
    let mut manager = PaletteManager::new(original.clone());
    manager.store_palette_i32(String::from("Hero"), vec![0x7fffi32; 16]);
    assert_eq!(manager.write_palette(&hero(1)), Err(PaletteError::OutOfBounds));
    assert_eq!(manager.write_palette(&hero(1000)), Err(PaletteError::OutOfBounds));
    assert_eq!(manager.rom_bytes(), &original);
}

#[test]
fn write_masks_words_to_sixteen_bits() {
    let mut manager = PaletteManager::new(vec![0u8; 4]);
    manager.store_palette_i32(String::from("Hero"), vec![0x1234, -1]);
    assert_eq!(manager.write_palette(&hero(0)), Ok(()));
    assert_eq!(manager.rom_bytes(), &vec![0x34u8, 0x12, 0xff, 0xff]);
}
