//! Palette entries, material assets, the reach table and the free segments.

use gate_render::brickmap::free_runs::FreeRuns;
use gate_render::brickmap::wire::{
    march_mask_lut_words, pack_palette_entry, pack_palette_entry_pbr, MaterialAsset, PaletteEntry,
    PaletteFlags, PbrOverrides, FLAG_HOLOGRAM, FLAG_IS_PBR, FLAG_LOCKED, FLAG_TRANSMISSIVE,
};

#[test]
fn displacement_amplitude_lives_in_the_reserved_byte() {
    assert_eq!(std::mem::size_of::<MaterialAsset>(), 32);
    let a = MaterialAsset { emissive_metal: 0x11 | 0x22 << 8 | 0x33 << 16, ..Default::default() };
    assert_eq!(a.displacement_amplitude(), 0);
    let b = a.with_displacement_amplitude(8);
    assert_eq!(b.emissive_metal, 0x0833_2211);
    assert_eq!(b.displacement_amplitude(), 8);
    assert_eq!(b.with_displacement_amplitude(4).emissive_metal, 0x0433_2211);
    assert_eq!(b.with_displacement_amplitude(255).displacement_amplitude(), 255);
}

#[test]
fn plain_variant_packing_is_bit_for_bit_unchanged() {
    let opaque = PaletteEntry {
        color: [0xC8, 0x64, 0x32],
        roughness: 0x80,
        flags: PaletteFlags(FLAG_LOCKED),
        ..Default::default()
    };
    assert_eq!(pack_palette_entry(&opaque), [0x803264C8, 0x00010000]);

    let glass =
        PaletteEntry { color: [0x0A, 0x14, 0x1E], transmission: 200, ..Default::default() };
    assert_eq!(pack_palette_entry(&glass), [0x001E140A, 0x0020C800]);

    let hologram = PaletteEntry {
        color: [0xFF, 0x80, 0x00],
        roughness: 0x28,
        emissive: 0x5A,
        transmission: 7,
        flags: PaletteFlags(FLAG_HOLOGRAM),
        ..Default::default()
    };
    assert_eq!(pack_palette_entry(&hologram), [0x280080FF, 0x0028075A]);
}

#[test]
fn plain_variant_maintains_transmissive_bit() {
    let mut e = PaletteEntry { transmission: 1, ..Default::default() };
    assert_ne!(pack_palette_entry(&e)[1] & 0x0020_0000, 0);
    e.transmission = 0;
    assert_eq!(pack_palette_entry(&e)[1] & 0x0020_0000, 0);
    e.flags = PaletteFlags(FLAG_TRANSMISSIVE);
    assert_ne!(pack_palette_entry(&e)[1] & 0x0020_0000, 0);
}

#[test]
fn plain_variant_ignores_pbr_payload() {
    let e = PaletteEntry {
        color: [1, 2, 3],
        roughness: 4,
        emissive: 5,
        transmission: 6,
        flags: PaletteFlags(FLAG_LOCKED),
        metallic: 7,
    };
    assert_eq!(pack_palette_entry(&e), [0x04030201, 0x07210605]);
}

#[test]
fn pbr_variant_packing_matches_d1_layout() {
    let ov =
        PbrOverrides { roughness: 1, metallic: 255, emissive: 0, transmission: 0, specular: 255 };
    let e = PaletteEntry::pbr(10, ov, PaletteFlags::default());
    assert_eq!(e.flags.0, 0x10);
    assert_eq!(pack_palette_entry(&e), [0x0000_FF01, 0xFF10_000A]);
    assert_eq!(pack_palette_entry_pbr(10, ov, PaletteFlags::default()), [0x0000_FF01, 0xFF10_000A]);

    let e_trans = PaletteEntry::pbr(10, ov, PaletteFlags(FLAG_TRANSMISSIVE));
    assert_eq!(pack_palette_entry(&e_trans), [0x0000_FF01, 0xFF30_000A]);
}

#[test]
fn pbr_variant_pack_unpack_round_trip() {
    let ov =
        PbrOverrides { roughness: 1, metallic: 128, emissive: 7, transmission: 200, specular: 64 };
    let flags = PaletteFlags(FLAG_LOCKED);
    let asset: u16 = 0x0ABC;
    let src = PaletteEntry::pbr(asset, ov, flags);
    let [w0, w1] = pack_palette_entry(&src);

    let unpacked = PbrOverrides {
        roughness: (w0 & 0xFF) as u8,
        metallic: ((w0 >> 8) & 0xFF) as u8,
        emissive: ((w0 >> 16) & 0xFF) as u8,
        transmission: ((w0 >> 24) & 0xFF) as u8,
        specular: ((w1 >> 24) & 0xFF) as u8,
    };
    let unpacked_flags = ((w1 >> 16) & 0xFF) as u8;
    let unpacked_asset = (w1 & 0xFFFF) as u16;

    assert_eq!(unpacked, ov);
    assert_eq!(unpacked_asset, asset);
    assert_eq!(unpacked_flags, flags.union(PaletteFlags(FLAG_IS_PBR)).0);
    assert_eq!(src.pbr_asset(), asset);
    assert_eq!(src.pbr_overrides(), ov);
}

#[test]
fn free_runs_first_fit_and_coalesce() {
    let mut f = FreeRuns::new();
    assert_eq!(f.alloc_run(4), None);
    f.free_run(100, 8);
    f.free_run(200, 8);
    f.free_run(108, 4);
    assert_eq!(f.words(), 20);
    assert_eq!(f.alloc_run(12), Some(100));
    assert_eq!(f.words(), 8);
    assert_eq!(f.alloc_run(9), None);
    f.free_run(300, 4);
    f.free_run(304, 4);
    assert_eq!(f.alloc_run(8), Some(200));
    assert_eq!(f.alloc_run(4), Some(300));
    assert_eq!(f.alloc_run(4), Some(304));
    assert_eq!(f.words(), 0);
    f.free_run(500, 4);
    f.free_run(510, 4);
    assert_eq!(f.alloc_run(8), None);
    assert!(!f.take_range(506, 4));
    f.free_run(600, 10);
    assert!(!f.take_range(606, 8));
    assert!(f.take_range(604, 4));
    assert_eq!(f.words(), 4 + 4 + 4 + 2);
    assert!(f.take_range(604, 0));
}

#[test]
fn reach_masks_hold_what_lies_ahead() {
    let lut = march_mask_lut_words();
    assert_eq!(lut.len(), 1024);
    let mask = |oct: usize, entry: usize| {
        (lut[oct * 128 + entry * 2] as u64) | ((lut[oct * 128 + entry * 2 + 1] as u64) << 32)
    };
    // up all axes from the first cell: everything
    assert_eq!(mask(7, 0), u64::MAX);
    // up all axes from the last cell: the last two along every axis
    let far = mask(7, 63);
    for p in 0..64u32 {
        let (x, y, z) = (p % 4, p / 4 % 4, p / 16);
        assert_eq!((far >> p) & 1 == 1, x >= 2 && y >= 2 && z >= 2, "cell {p}");
    }
    // down all axes from the last cell: everything
    assert_eq!(mask(0, 63), u64::MAX);
}

#[test]
fn giving_an_allocation_back_restores_the_table() {
    let mut f = FreeRuns::new();
    f.free_run(10, 4);
    f.free_run(20, 9);
    let before = format!("{f:?}");
    assert_eq!(f.alloc_run(6), Some(20));
    assert_ne!(format!("{f:?}"), before);
    f.free_run(20, 6);
    assert_eq!(format!("{f:?}"), before);
    f.free_run(15, 0);
    assert_eq!(format!("{f:?}"), before);
}
