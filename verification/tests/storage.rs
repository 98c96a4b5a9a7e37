//! Bit storage and the paletted container on concrete values.

use mcproto::bits::BitStorage;
use mcproto::palette::{Palette, PaletteType, PalettedContainer, PalettedContainerType};

#[test]
fn bit_storage_set_get() {
    let mut s = BitStorage::new(5, 100, None).unwrap();
    assert_eq!(s.size(), 100);
    for i in 0..100 {
        assert_eq!(s.get(i), 0);
    }
    s.set(3, 17);
    assert_eq!(s.get(3), 17);
    // values are masked to the cell width
    s.set(4, 0xffff);
    assert_eq!(s.get(4), 0x1f);
    // other cells keep their values
    assert_eq!(s.get(3), 17);
    assert_eq!(s.get(2), 0);
    assert_eq!(s.get(5), 0);
    let old = s.get_and_set(3, 9);
    assert_eq!(old, 17);
    assert_eq!(s.get(3), 9);
}

#[test]
fn bit_storage_word_boundaries() {
    // 5-bit cells: 12 whole cells per word, none straddles a boundary
    let mut s = BitStorage::new(5, 24, None).unwrap();
    for i in 0..24 {
        s.set(i, (i as u64) & 0x1f);
    }
    for i in 0..24 {
        assert_eq!(s.get(i), (i as u64) & 0x1f);
    }
}

#[test]
fn bit_storage_rejects_bad_geometry() {
    assert!(BitStorage::new(65, 10, None).is_err());
    assert!(BitStorage::new(4, 10, Some(vec![0u64; 7])).is_err());
    assert!(BitStorage::new(0, 10, Some(vec![1u64])).is_err());
    assert!(BitStorage::new(4, 16, Some(vec![0u64])).is_ok());
}

#[test]
fn test_palette_resizing() {
    let mut palette_container = PalettedContainer::new(&PalettedContainerType::BlockStates)
        .unwrap();

    assert_eq!(palette_container.bits_per_entry, 0);
    assert_eq!(palette_container.get(8, 8, 8), 0);
    assert!(matches!(palette_container.palette.type_of(), PaletteType::SingleValue));
    palette_container.set(8, 8, 8, 1);
    assert_eq!(palette_container.get(8, 8, 8), 1);
    assert!(matches!(palette_container.palette.type_of(), PaletteType::Linear));
}

#[test]
fn palette_promotion_preserves_contents() {
    let mut c = PalettedContainer::new(&PalettedContainerType::BlockStates).unwrap();
    // write enough distinct values to push the palette through Linear into
    // Hashmap; every earlier write must survive each promotion
    for v in 0..40u32 {
        let x = (v % 16) as usize;
        let y = (v / 16) as usize;
        c.set(x, y, 0, v + 100);
    }
    assert!(matches!(c.palette.type_of(), PaletteType::Hashmap));
    assert!(c.bits_per_entry >= 5);
    for v in 0..40u32 {
        let x = (v % 16) as usize;
        let y = (v / 16) as usize;
        assert_eq!(c.get(x, y, 0), v + 100);
    }
    // the type invariant: the palette variant matches the bit width
    assert_eq!(
        PaletteType::from_bits_and_type(c.bits_per_entry, &c.container_type),
        c.palette.type_of()
    );
    // overwriting keeps the last value written
    c.set(2, 0, 0, 100);
    assert_eq!(c.get(2, 0, 0), 100);
}

#[test]
fn biomes_promote_to_global() {
    let mut c = PalettedContainer::new(&PalettedContainerType::Biomes).unwrap();
    for v in 0..12u32 {
        c.set(v as usize % 4, 0, 0, v);
    }
    assert!(matches!(c.palette.type_of(), PaletteType::Global));
    assert_eq!(
        PaletteType::from_bits_and_type(c.bits_per_entry, &c.container_type),
        c.palette.type_of()
    );
    for v in 8..12u32 {
        assert_eq!(c.get(v as usize % 4, 0, 0), v);
    }
}

#[test]
fn container_wire_round_trip() {
    let mut c = PalettedContainer::new(&PalettedContainerType::BlockStates).unwrap();
    c.set(8, 8, 8, 1);
    c.set(0, 0, 0, 7);
    let mut buf: Vec<u8> = Vec::new();
    c.write_into(&mut buf);
    let (back, end) = PalettedContainer::read_with_type(
        &buf,
        0,
        &PalettedContainerType::BlockStates,
    )
        .unwrap();
    assert_eq!(end, buf.len());
    assert_eq!(back.bits_per_entry, c.bits_per_entry);
    assert_eq!(back.get(8, 8, 8), 1);
    assert_eq!(back.get(0, 0, 0), 7);
    assert_eq!(back.get(1, 2, 3), 0);
}

#[test]
fn palette_read_rejects_bad_wire_data() {
    // bits per entry of 2 selects a linear palette for block states, whose
    // cells must point into the palette: a duplicate entry list is refused
    let mut buf: Vec<u8> = vec![2u8];
    // palette: two entries, both 5
    buf.extend_from_slice(&[2, 5, 5]);
    // storage: words for 4096 cells at 2 bits = 128 words
    buf.push(0x80);
    buf.push(0x01);
    buf.extend_from_slice(&vec![0u8; 128 * 8]);
    assert!(
        PalettedContainer::read_with_type(&buf, 0, &PalettedContainerType::BlockStates).is_err()
    );
}
