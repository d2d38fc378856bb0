use wce::formats::binary_reader::BinaryReader;
use wce::formats::binary_writer::BinaryWriter;
use wce::formats::GameVersion;
use wce::map::doodad_map::{Destructable, DoodadMap, SpecialDoodad};
use wce::map::unit_map::{
    AbilityModification, DropItem, DropItemSet, Drops, InventoryItem, RandomUnit, RandomUnitItemFlag, UnitItem,
    UnitItemMap,
};

#[test]
fn drops_embedded_table_round_trip_tft() {
    let drops = Drops::EmbeddedTable(vec![DropItemSet(vec![
        DropItem("ratf".to_string(), 50),
        DropItem("ckng".to_string(), 50),
    ])]);
    let mut writer = BinaryWriter::new();
    drops.write_version(&mut writer, &GameVersion::TFT).unwrap();
    let bytes = writer.into_buffer();
    assert_eq!(&bytes[0..8], &[0xFF, 0xFF, 0xFF, 0xFF, 1, 0, 0, 0]);
    let mut reader = BinaryReader::new(bytes.clone());
    match Drops::read_version(&mut reader, &GameVersion::TFT).unwrap() {
        Drops::EmbeddedTable(sets) => {
            assert_eq!(sets.len(), 1);
            assert_eq!(sets[0].0.len(), 2);
            assert_eq!(sets[0].0[1].0, "ckng");
            assert_eq!(sets[0].0[1].1, 50);
        }
        other => panic!("unexpected {:?}", other),
    }
    assert_eq!(reader.pos() as usize, bytes.len());
}

#[test]
fn drops_preset_table_skips_sets_tft() {
    let mut reader = BinaryReader::new(vec![3, 0, 0, 0, 2, 0, 0, 0]);
    assert!(matches!(Drops::read_version(&mut reader, &GameVersion::TFT), Ok(Drops::PresetTable(3))));
    assert_eq!(reader.pos(), 8);
    let mut writer = BinaryWriter::new();
    Drops::PresetTable(3).write_version(&mut writer, &GameVersion::TFT).unwrap();
    assert_eq!(writer.into_buffer(), vec![3, 0, 0, 0, 0, 0, 0, 0]);
}

#[test]
fn drops_empty_roc_and_tft() {
    let mut reader = BinaryReader::new(vec![0, 0, 0, 0]);
    assert!(matches!(Drops::read_version(&mut reader, &GameVersion::RoC), Ok(Drops::Empty)));
    let mut reader = BinaryReader::new(vec![0xFF, 0xFF, 0xFF, 0xFF, 0, 0, 0, 0]);
    assert!(matches!(Drops::read_version(&mut reader, &GameVersion::TFT), Ok(Drops::Empty)));
    let mut writer = BinaryWriter::new();
    Drops::Empty.write_version(&mut writer, &GameVersion::RoC).unwrap();
    assert_eq!(writer.into_buffer(), vec![0, 0, 0, 0]);
}

#[test]
fn drops_truncated_is_error() {
    let mut reader = BinaryReader::new(vec![1, 0, 0, 0, 1, 0, 0, 0, b'r']);
    assert!(Drops::read_version(&mut reader, &GameVersion::RoC).is_err());
}

fn sample_unit(drops: Drops, random_type: RandomUnitItemFlag) -> UnitItem {
    UnitItem {
        model_id: "hfoo".to_string(),
        variation: 1,
        coord_x: 0x4120_0000,
        coord_y: 0xC120_0000,
        coord_z: 0,
        angle: 0x3F80_0000,
        scale_x: 0x3F80_0000,
        scale_y: 0x3F80_0000,
        scale_z: 0x3F80_0000,
        flags: 2,
        player_owner: 3,
        unk1: 0,
        unk2: 0,
        hp: -1,
        mana: 25,
        drops,
        gold_amount: 12500,
        acquisition_range: 0xBF80_0000,
        strength: 7,
        agility: -2,
        intelligence: 9,
        level: 4,
        inventory: vec![InventoryItem(0, "ratc".to_string()), InventoryItem(5, "bspd".to_string())],
        abilities: vec![AbilityModification { ability_id: "AHbz".to_string(), autocast: true, level: 2 }],
        random_type,
        color: -1,
        waygate_region_id: -1,
        creation_id: 42,
    }
}

#[test]
fn unit_map_write_read_tft() {
    let drops = Drops::EmbeddedTable(vec![DropItemSet(vec![DropItem("ratf".to_string(), 100)])]);
    let random = RandomUnitItemFlag::RandomFromCustomTable(vec![
        RandomUnit("hfoo".to_string(), 0x3F00_0000),
        RandomUnit("hkni".to_string(), 0x3F00_0000),
    ]);
    let map = UnitItemMap {
        id: "W3do".to_string(),
        version: GameVersion::TFT,
        subversion: 11,
        units_items: vec![
            sample_unit(drops, random),
            sample_unit(Drops::PresetTable(2), RandomUnitItemFlag::Neutral(5, 3)),
        ],
    };
    let bytes = map.prepare_write().unwrap().into_buffer();
    let mut reader = BinaryReader::new(bytes);
    let back = UnitItemMap::read(&mut reader).unwrap();
    assert_eq!(back.id, "W3do");
    assert_eq!(back.version, GameVersion::TFT);
    assert_eq!(back.subversion, 11);
    assert_eq!(back.units_items.len(), 2);
    let first = &back.units_items[0];
    assert_eq!(first.hp, -1);
    assert_eq!(first.agility, -2);
    assert_eq!(first.inventory.len(), 2);
    assert_eq!(first.inventory[1].0, 5);
    assert_eq!(first.inventory[1].1, "bspd");
    assert!(first.abilities[0].autocast);
    assert!(matches!(&first.drops, Drops::EmbeddedTable(sets) if sets[0].0[0].0 == "ratf"));
    assert!(matches!(&first.random_type, RandomUnitItemFlag::RandomFromCustomTable(units) if units[1].0 == "hkni"));
    let second = &back.units_items[1];
    assert!(matches!(second.drops, Drops::PresetTable(2)));
    assert!(matches!(second.random_type, RandomUnitItemFlag::Neutral(5, 3)));
    assert_eq!(second.creation_id, 42);
}

#[test]
fn unit_map_write_read_roc_drops_attributes() {
    let map = UnitItemMap {
        id: "W3do".to_string(),
        version: GameVersion::RoC,
        subversion: 9,
        units_items: vec![sample_unit(Drops::Empty, RandomUnitItemFlag::NotRandom)],
    };
    let bytes = map.prepare_write().unwrap().into_buffer();
    let mut reader = BinaryReader::new(bytes);
    let back = UnitItemMap::read(&mut reader).unwrap();
    let unit = &back.units_items[0];
    assert_eq!((unit.strength, unit.agility, unit.intelligence), (0, 0, 0));
    assert_eq!(unit.level, 4);
    assert!(matches!(unit.random_type, RandomUnitItemFlag::NotRandom));
    assert!(matches!(unit.drops, Drops::Empty));
}

fn sample_destructable(drops: Drops) -> Destructable {
    Destructable {
        model_id: "LTlt".to_string(),
        variation: 3,
        coord_x: 0x4480_0000,
        coord_y: 0x4480_0000,
        coord_z: 0,
        angle: 0,
        scale_x: 0x3F80_0000,
        scale_y: 0x3F80_0000,
        scale_z: 0x3F80_0000,
        flags: 2,
        life: 100,
        drops,
        creation_id: 7,
    }
}

#[test]
fn doodad_map_write_read() {
    let map = DoodadMap {
        id: "W3do".to_string(),
        version: GameVersion::TFT,
        subversion: 11,
        destructables: vec![
            sample_destructable(Drops::PresetTable(0)),
            sample_destructable(Drops::EmbeddedTable(vec![DropItemSet(vec![DropItem("gold".to_string(), 30)])])),
        ],
        special_doodad_version: 0,
        special_doodads: vec![SpecialDoodad {
            model_id: "YOlb".to_string(),
            coord_x: 4,
            coord_y: 5,
            coord_z: 6,
        }],
    };
    let bytes = map.prepare_write().unwrap().into_buffer();
    let mut reader = BinaryReader::new(bytes);
    let back = DoodadMap::read(&mut reader).unwrap();
    assert_eq!(back.subversion, 11);
    assert_eq!(back.destructables.len(), 2);
    assert_eq!(back.destructables[0].model_id, "LTlt");
    assert_eq!(back.destructables[1].life, 100);
    assert!(matches!(back.destructables[0].drops, Drops::PresetTable(0)));
    assert!(matches!(&back.destructables[1].drops, Drops::EmbeddedTable(sets) if sets[0].0[0].1 == 30));
    assert_eq!(back.special_doodads.len(), 1);
    assert_eq!(back.special_doodads[0].model_id, "YOlb");
    assert_eq!(back.special_doodads[0].coord_z, 6);
}

#[test]
fn doodad_map_roc_stores_no_drops() {
    let map = DoodadMap {
        id: "W3do".to_string(),
        version: GameVersion::RoC,
        subversion: 7,
        destructables: vec![sample_destructable(Drops::PresetTable(4))],
        special_doodad_version: 0,
        special_doodads: vec![],
    };
    let bytes = map.prepare_write().unwrap().into_buffer();
    assert_eq!(bytes.len(), 16 + 42 + 8);
    let mut reader = BinaryReader::new(bytes);
    let back = DoodadMap::read(&mut reader).unwrap();
    assert!(matches!(back.destructables[0].drops, Drops::Empty));
    assert_eq!(back.destructables[0].creation_id, 7);
}
