use player_color_param::{
    EntryKey, PlayerColorParam, RGB, api_filetype, from_json, key_to_string, string_to_key,
    to_json,
};

fn sample_key() -> EntryKey {
    EntryKey { character_id: "5grn01".to_string(), costume_index: 2, alt_index: 3 }
}

#[test]
fn test_two_way() {
    let entry_key = sample_key();
    let mut param = PlayerColorParam::new();
    param.insert(entry_key.clone(), RGB { red: 255, green: 0, blue: 69 });

    let json = to_json(&param).unwrap();

    println!("Generated JSON:\n{}", json);
    assert!(json.contains("5grn21col3"));
    assert!(json.contains("#FF0045"));

    let param = from_json(&json).unwrap();

    assert!(param.contains_key(&entry_key));
    let color = param.get(&entry_key).unwrap();
    assert_eq!(color.red, 255);
    assert_eq!(color.green, 0);
    assert_eq!(color.blue, 69);
}

#[test]
fn color_encodes_uppercase_hex() {
    let c = RGB { red: 255, green: 0, blue: 69 };
    assert_eq!(c.to_hex_str(true), "#FF0045");
    assert_eq!(c.to_hex_str(false), "FF0045");
    assert_eq!(RGB { red: 0, green: 0, blue: 0 }.to_hex_str(true), "#000000");
    assert_eq!(RGB { red: 255, green: 255, blue: 255 }.to_hex_str(true), "#FFFFFF");
    assert_eq!(RGB { red: 1, green: 2, blue: 3 }.to_hex_str(true), "#010203");
}

#[test]
fn color_round_trips() {
    for &(r, g, b) in &[(0u8, 0u8, 0u8), (255, 255, 255), (255, 0, 69), (18, 52, 86)] {
        let c = RGB { red: r, green: g, blue: b };
        let decoded = RGB::from_hex_str(&c.to_hex_str(true)).unwrap();
        assert_eq!(decoded, c);
    }
}

#[test]
fn color_decode_accepts_lowercase() {
    let c = RGB::from_hex_str("#ff0045").unwrap();
    assert_eq!(c, RGB { red: 255, green: 0, blue: 69 });
}

#[test]
fn color_decode_rejects_malformed() {
    assert!(RGB::from_hex_str("").is_none());
    assert!(RGB::from_hex_str("FF0045").is_none());
    assert!(RGB::from_hex_str("#FF004").is_none());
    assert!(RGB::from_hex_str("#FF00455").is_none());
    assert!(RGB::from_hex_str("#FF004G").is_none());
    assert!(RGB::from_hex_str("xFF0045").is_none());
}

#[test]
fn key_encodes_fixed_positions() {
    assert_eq!(key_to_string(&sample_key()), "5grn21col3");
    let k = EntryKey { character_id: "abcd0e".to_string(), costume_index: 0, alt_index: 9 };
    assert_eq!(key_to_string(&k), "abcd0ecol9");
}

#[test]
fn key_round_trips() {
    let k = sample_key();
    let decoded = string_to_key(&key_to_string(&k)).unwrap();
    assert_eq!(decoded, k);
}

#[test]
fn key_decode_rejects_wrong_length() {
    assert!(string_to_key("").is_none());
    assert!(string_to_key("5grn21col").is_none());
    assert!(string_to_key("5grn21col34").is_none());
}

#[test]
fn key_decode_rejects_non_digit_positions() {
    assert!(string_to_key("5grnx1col3").is_none());
    assert!(string_to_key("5grn21colx").is_none());
    assert!(string_to_key("5grn/1col3").is_none());
    assert!(string_to_key("5grn:1col:").is_none());
}

#[test]
fn key_decode_ignores_filler_positions() {
    // Positions 6 to 8 hold `col` in encoded keys, but the decoder reads
    // only the digits and the identifier characters.
    let decoded = string_to_key("5grn21xyz3").unwrap();
    assert_eq!(decoded, sample_key());
}

#[test]
fn serialize_empty_table() {
    let param = PlayerColorParam::new();
    let json = to_json(&param).unwrap();
    assert_eq!(json, "{\n  \"filetype\": \"PlayerColorParam\",\n  \"version\": 260218\n\n}");
}

#[test]
fn serialize_one_entry_exact_text() {
    let mut param = PlayerColorParam::new();
    param.insert(sample_key(), RGB { red: 255, green: 0, blue: 69 });
    let json = to_json(&param).unwrap();
    assert_eq!(
        json,
        "{\n  \"filetype\": \"PlayerColorParam\",\n  \"version\": 260218,\n\n  \"5grn21col3\": \"#FF0045\"\n}"
    );
}

#[test]
fn serialize_blank_fourth_line() {
    let mut param = PlayerColorParam::new();
    let json = to_json(&param).unwrap();
    assert_eq!(json.lines().nth(3), Some(""));
    param.insert(sample_key(), RGB { red: 1, green: 2, blue: 3 });
    let json = to_json(&param).unwrap();
    assert_eq!(json.lines().nth(3), Some(""));
}

#[test]
fn serialize_keeps_insertion_order() {
    let a = EntryKey { character_id: "aaaa0a".to_string(), costume_index: 1, alt_index: 1 };
    let b = EntryKey { character_id: "bbbb0b".to_string(), costume_index: 2, alt_index: 2 };
    let mut param = PlayerColorParam::new();
    param.insert(b.clone(), RGB { red: 2, green: 2, blue: 2 });
    param.insert(a.clone(), RGB { red: 1, green: 1, blue: 1 });
    let json = to_json(&param).unwrap();
    let pos_b = json.find("bbbb2bcol2").unwrap();
    let pos_a = json.find("aaaa1acol1").unwrap();
    assert!(pos_b < pos_a);
}

#[test]
fn deserialize_without_blank_line_or_filetype() {
    let json = "{\"version\": 260218, \"5grn21col3\": \"#FF0045\"}";
    let param = from_json(json).unwrap();
    assert_eq!(param.len(), 1);
    assert!(param.contains_key(&sample_key()));
}

#[test]
fn deserialize_drops_malformed_entries() {
    let json = "{\n  \"version\": 260218,\n  \"badkey\": \"#FF0045\",\n  \"5grn21col3\": \"#FF0045\"\n}";
    let param = from_json(json).unwrap();
    assert_eq!(param.len(), 1);
    assert!(param.contains_key(&sample_key()));

    let json = "{\"version\": 260218, \"5grn21col3\": \"notacolor\"}";
    let param = from_json(json).unwrap();
    assert_eq!(param.len(), 0);
}

#[test]
fn deserialize_requires_version() {
    assert!(from_json("{}").is_err());
    assert!(from_json("{\"filetype\": \"PlayerColorParam\"}").is_err());
    assert!(from_json("{\"5grn21col3\": \"#FF0045\"}").is_err());
}

#[test]
fn deserialize_accepts_any_version_number() {
    let param = from_json("{\"version\": 1}").unwrap();
    assert_eq!(param.len(), 0);
}

#[test]
fn deserialize_rejects_ill_formed_documents() {
    assert!(from_json("").is_err());
    assert!(from_json("{").is_err());
    assert!(from_json("{\"version\": 260218,}").is_err());
    assert!(from_json("{\"version\": \"260218\"}").is_err());
    assert!(from_json("{\"version\": 260218} trailing").is_err());
    assert!(from_json("{\"version\": 260218, \"5grn21col3\": 7}").is_err());
    assert!(from_json("{\"version\": 4294967296}").is_err());
    assert!(from_json("{\"version\": 260218, \"a\\\"b\": \"#000000\"}").is_err());
}

#[test]
fn deserialize_last_write_wins() {
    let json = "{\"version\": 260218, \"5grn21col3\": \"#000000\", \"5grn21col3\": \"#FFFFFF\"}";
    let param = from_json(json).unwrap();
    assert_eq!(param.len(), 1);
    let color = param.get(&sample_key()).unwrap();
    assert_eq!(color, RGB { red: 255, green: 255, blue: 255 });
}

#[test]
fn table_insert_updates_existing_key() {
    let mut param = PlayerColorParam::new();
    param.insert(sample_key(), RGB { red: 1, green: 1, blue: 1 });
    param.insert(sample_key(), RGB { red: 9, green: 9, blue: 9 });
    assert_eq!(param.len(), 1);
    assert_eq!(param.get(&sample_key()).unwrap(), RGB { red: 9, green: 9, blue: 9 });
    let other = EntryKey { character_id: "zzzz0z".to_string(), costume_index: 0, alt_index: 0 };
    assert!(!param.contains_key(&other));
    assert!(param.get(&other).is_none());
}

#[test]
fn round_trip_many_entries() {
    let keys = [("aaaa0a", 0u8, 1u8), ("bbbb0b", 5, 5), ("cccc0c", 9, 9)];
    let mut param = PlayerColorParam::new();
    for (i, &(id, costume, alt)) in keys.iter().enumerate() {
        let k = EntryKey { character_id: id.to_string(), costume_index: costume, alt_index: alt };
        let v = RGB { red: i as u8, green: 2 * i as u8, blue: 100 + i as u8 };
        param.insert(k, v);
    }
    let json = to_json(&param).unwrap();
    let back = from_json(&json).unwrap();
    assert_eq!(back.len(), 3);
    for (i, &(id, costume, alt)) in keys.iter().enumerate() {
        let k = EntryKey { character_id: id.to_string(), costume_index: costume, alt_index: alt };
        let v = RGB { red: i as u8, green: 2 * i as u8, blue: 100 + i as u8 };
        assert_eq!(back.get(&k).unwrap(), v);
    }
}

#[test]
fn filetype_tag_constant() {
    assert_eq!(api_filetype(), "PlayerColorParam");
    assert_eq!(player_color_param::doc::API_VERSION, 260218);
    let mut param = PlayerColorParam::new();
    param.insert(sample_key(), RGB { red: 0, green: 0, blue: 0 });
    let json = to_json(&param).unwrap();
    assert!(json.contains("\"filetype\": \"PlayerColorParam\""));
    assert!(json.contains("\"version\": 260218"));
}
