use sc2replay::mpq::structs::{GameVersion, MPQHeader};
use sc2replay::numbers::Integer;
use sc2replay::sc2::details::{
    decode_blob, parse_cache_handle, parse_color_hashmap, parse_details, parse_players, parse_thumbnail,
    try_parse_color_hashmap, try_parse_details,
};
use sc2replay::sc2::parser::parse_event_header;
use sc2replay::sc2::structs::{DataType, Event};

fn key(k: u8) -> Integer {
    Integer::small(k)
}

fn vint(k: u8) -> Box<DataType> {
    Box::new(DataType::VInt(Integer::small(k)))
}

fn blob(b: &[u8]) -> Box<DataType> {
    Box::new(DataType::Blob(b.to_vec()))
}

fn player_table(name: &str) -> DataType {
    let bnet = DataType::HashMap(vec![
        (key(0), vint(1)),
        (key(1), Box::new(DataType::UInt32(0x53320000))),
        (key(2), vint(2)),
        (key(4), vint(99)),
    ]);
    let color = DataType::HashMap(vec![(key(0), vint(100)), (key(1), vint(5))]);
    DataType::HashMap(vec![
        (key(0), blob(name.as_bytes())),
        (key(1), Box::new(bnet)),
        (key(2), blob(b"Terran")),
        (key(3), Box::new(color)),
        (key(4), vint(2)),
        (key(5), vint(0)),
        (key(6), vint(100)),
        (key(7), vint(0)),
        (key(8), vint(1)),
    ])
}

fn details_table(cache: &[u8]) -> Vec<(Integer, Box<DataType>)> {
    vec![
        (key(0), Box::new(DataType::Array(vec![Box::new(player_table("Pille"))]))),
        (key(1), blob(b"Map")),
        (key(2), blob(b"")),
        (key(3), Box::new(DataType::HashMap(vec![(key(0), blob(b"thumb.tga"))]))),
        (key(4), Box::new(DataType::UInt8(1))),
        (key(5), vint(7)),
        (key(6), vint(3)),
        (key(7), blob(b"desc")),
        (key(8), blob(b"img")),
        (key(9), blob(b"file")),
        (key(10), Box::new(DataType::Array(vec![blob(cache)]))),
        (key(11), Box::new(DataType::UInt8(0))),
        (key(12), vint(4)),
        (key(13), vint(5)),
    ]
}

#[test]
fn players_are_read_from_their_tables() {
    let players = parse_players(&vec![Box::new(player_table("Pille"))]);
    assert_eq!(players.len(), 1);
    let p = &players[0];
    assert_eq!(p.name, "Pille");
    assert_eq!(p.race, "Terran");
    assert_eq!(p.bnet.program_id, 0x53320000);
    assert_eq!(p.bnet.uid.to_decimal_string(), "99");
    assert_eq!(p.color.a.to_decimal_string(), "100");
    assert_eq!(p.color.r.to_decimal_string(), "100");
    assert_eq!(p.color.b.to_decimal_string(), "100");
    assert_eq!(p.handicap.to_decimal_string(), "100");
    assert_eq!(p.result.to_decimal_string(), "1");
}

#[test]
fn cache_handles_become_depot_addresses() {
    let mut eu = b"s2ma\0\0EU".to_vec();
    eu.extend_from_slice(&[0xab, 0x01]);
    let mut sea = b"s2maSEA\0".to_vec();
    sea.push(0xff);
    let mut cn = b"s2mvCN\0\0".to_vec();
    cn.push(0x10);
    let urls = parse_cache_handle(&vec![blob(&eu), blob(&sea), blob(&cn)]);
    assert_eq!(urls[0], "https://eu-s2-depot.classic.blizzard.com/ab01.s2ma");
    assert_eq!(urls[1], "https://us-s2-depot.classic.blizzard.com/ff.s2ma");
    assert_eq!(urls[2], "http://cn-s2-depot.battlenet.com.cn/10.s2mv");
}

#[test]
fn thumbnail_and_blob_text() {
    let t = vec![(key(0), blob(b"thumb.tga"))];
    assert_eq!(parse_thumbnail(&t), "thumb.tga");
    assert_eq!(decode_blob("héllo".as_bytes()), "héllo");
}

#[test]
fn details_of_a_game() {
    let mut cache = b"s2ma\0\0EU".to_vec();
    cache.push(0x42);
    let d = parse_details(details_table(&cache));
    assert_eq!(d.players.len(), 1);
    assert_eq!(d.players[0].name, "Pille");
    assert_eq!(d.map_name, "Map");
    assert_eq!(d.difficulty, "");
    assert_eq!(d.thumbnail, "thumb.tga");
    assert_eq!(d.blizz_map, 1);
    assert_eq!(d.file_time.to_decimal_string(), "7");
    assert_eq!(d.utc_adjustment.to_decimal_string(), "3");
    assert_eq!(d.description, "desc");
    assert_eq!(d.image_file_path, "img");
    assert_eq!(d.map_file_name, "file");
    assert_eq!(d.cache_handle, vec!["https://eu-s2-depot.classic.blizzard.com/42.s2ma".to_string()]);
    assert_eq!(d.mini_save, 0);
    assert_eq!(d.game_speed.to_decimal_string(), "4");
    assert_eq!(d.default_difficulty.to_decimal_string(), "5");
}

#[test]
fn details_with_a_missing_or_wrong_field_are_refused() {
    let mut table = details_table(b"s2ma\0\0EU");
    assert!(try_parse_details(&table).is_some());
    table.pop();
    assert!(try_parse_details(&table).is_none());
    let mut table = details_table(b"s2ma\0\0EU");
    table[1].1 = vint(3);
    assert!(try_parse_details(&table).is_none());
    assert!(try_parse_details(&details_table(b"short")).is_none());
    let mut table = details_table(b"s2ma\0\0EU");
    table[7].1 = blob(&[0xff, 0xfe]);
    assert!(try_parse_details(&table).is_none());
}

#[test]
fn color_table_keys() {
    let t = vec![(key(0), vint(5)), (Integer::new(true, sc2replay::numbers::Natural::from_base128_be(&[1])), vint(7)), (key(2), vint(9))];
    let c = parse_color_hashmap(&t);
    assert_eq!(c.len(), 2);
    assert_eq!(c[0].0, 0);
    assert_eq!(c[0].1.to_decimal_string(), "7");
    assert_eq!(c[1].0, 2);
    assert_eq!(c[1].1.to_decimal_string(), "9");
    let bad = vec![(key(0), blob(b"x"))];
    assert!(try_parse_color_hashmap(&bad).is_none());
}

#[test]
fn event_header() {
    let (rest, (frame, pid, event_type)) = parse_event_header(&[0x08, 0xB6, 0x00], 10).unwrap();
    assert_eq!(rest, &[0xB6, 0x00][..]);
    assert_eq!(frame, 12);
    assert_eq!(pid, 5);
    assert_eq!(event_type, 22 + 11 * 256);
    let (rest, (frame, pid, event_type)) = parse_event_header(&[0x00, 0x01], 0).unwrap();
    assert_eq!(rest, &[0x01][..]);
    assert_eq!(frame, 0);
    assert_eq!(pid, 0);
    assert_eq!(event_type, 1);
    let (_, (_, pid, event_type)) = parse_event_header(&[0x00, 0x10], 0).unwrap();
    assert_eq!(pid, 0);
    assert_eq!(event_type, 16 + 256);
    assert!(parse_event_header(&[0x08], 0).is_err());
}

#[test]
fn event_fields() {
    let e = Event::new(27, "Command".to_string(), 16, 35);
    assert_eq!(e.second, 2);
    assert!(!e.is_local);
    assert!(e.player.is_none());
    let e = Event::new(27, "Command".to_string(), 1, 35);
    assert!(e.is_local);
    assert_eq!(e.frame, 35);
}

#[test]
fn pretty_print_of_replay_values() {
    let a = DataType::Array(vec![Box::new(DataType::UInt8(1)), Box::new(DataType::Str("x".to_string()))]);
    assert_eq!(a.to_string(), "[\n1_u8,\n\"x\",\n]");
    assert_eq!(a.pretty_print(1), "[\n  1_u8,\n  \"x\",\n  ]");
    let m = DataType::HashMap(vec![(key(3), vint(7))]);
    assert_eq!(m.to_string(), "{\n  3: 7_vint,\n}");
    assert_eq!(m.pretty_print(2), "{\n      3: 7_vint,\n  }");
    assert_eq!(DataType::Blob(vec![1, 1]).to_string(), "257_bytes");
    assert_eq!(DataType::UInt64(5).to_string(), "5_u64");
    assert_eq!(DataType::UInt64(u64::MAX).to_string(), "18446744073709551615_u64");
    assert_eq!(DataType::UInt8(0).to_string(), "0_u8");
    assert_eq!(DataType::UInt32(6).to_string(), "6_u32");
    assert_eq!(DataType::Optional(None).to_string(), "None");
    assert_eq!(DataType::Optional(Some(Box::new(DataType::UInt8(3)))).to_string(), "Some(3_u8)");
    let neg = Integer::new(true, sc2replay::numbers::Natural::from_base128_be(&[2]));
    assert_eq!(DataType::VInt(neg).to_string(), "-2_vint");
}

#[test]
fn header_texts() {
    let v = GameVersion { major: 1, minor: 2, patch: 3, build: -4 };
    assert_eq!(v.to_string(), "1.2.3.-4");
    let h = MPQHeader {
        header_size: 44,
        archive_size: 1,
        format_version: 1,
        sector_size_shift: 3,
        hashtable_offset: 2,
        hashtable_entries: 3,
        blocktable_offset: 4,
        blocktable_entries: 5,
        extended_blocktable_offset: 0,
    };
    let t = h.to_string();
    assert!(t.starts_with("\"MPQ Header\": {\n\t\"header size\":                  44,"));
    assert!(t.ends_with("\"extended blocktable offset\":   0\n}"));
    assert!(t.contains("\n\t\"blocktable size (in entries)\": 5,"));
}
