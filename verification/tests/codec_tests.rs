use namestats::codec::{deserialize, serialize, DecodeError, NameTable};
use namestats::names::Info;

fn header(start_year: u32, years: u32, count: u32) -> Vec<u8> {
    let mut out = Vec::new();
    out.extend_from_slice(&start_year.to_le_bytes());
    out.extend_from_slice(&years.to_le_bytes());
    out.extend_from_slice(&count.to_le_bytes());
    out
}

fn push_record(out: &mut Vec<u8>, sex: u8, name: &[u8], counts: &[u32; 40]) {
    out.push(sex);
    out.push(name.len() as u8);
    out.extend_from_slice(name);
    for c in counts.iter() {
        out.extend_from_slice(&c.to_le_bytes());
    }
}

#[test]
fn decode_empty_dataset() {
    let buf = header(1984, 40, 0);
    let table = deserialize(&buf).unwrap();
    assert_eq!(table.len(), 0);
}

#[test]
fn decode_one_record() {
    let mut buf = header(1984, 40, 1);
    push_record(&mut buf, 1, b"Mia", &[3; 40]);
    let table = deserialize(&buf).unwrap();
    assert_eq!(table.len(), 1);
    let info = table.get(&"Mia".to_string()).unwrap();
    assert_eq!(info.sex, 1);
    assert_eq!(info.year_count, [3u32; 40]);
}

#[test]
fn wrong_start_year_is_unsupported_schema() {
    let mut buf = header(1985, 40, 0);
    match deserialize(&buf) {
        Err(DecodeError::UnsupportedSchema) => {}
        other => panic!("expected UnsupportedSchema, got {:?}", other.map(|t| t.len())),
    }
    // The header check fires even when a valid record follows.
    buf = header(1985, 40, 1);
    push_record(&mut buf, 1, b"Mia", &[0; 40]);
    assert_eq!(deserialize(&buf).unwrap_err(), DecodeError::UnsupportedSchema);
}

#[test]
fn wrong_year_span_is_unsupported_schema() {
    let buf = header(1984, 39, 0);
    assert_eq!(deserialize(&buf).unwrap_err(), DecodeError::UnsupportedSchema);
}

#[test]
fn short_header_is_truncated() {
    assert_eq!(deserialize(&[]).unwrap_err(), DecodeError::Truncated);
    assert_eq!(deserialize(&[0xC0]).unwrap_err(), DecodeError::Truncated);
    let full = header(1984, 40, 0);
    for cut in 0..12 {
        assert_eq!(
            deserialize(&full[..cut]).unwrap_err(),
            DecodeError::Truncated,
            "cut at {cut}"
        );
    }
}

#[test]
fn every_cut_after_header_is_truncated() {
    let mut buf = header(1984, 40, 2);
    push_record(&mut buf, 1, b"Ada", &[7; 40]);
    push_record(&mut buf, 2, b"Bo", &[9; 40]);
    for cut in 12..buf.len() {
        assert_eq!(
            deserialize(&buf[..cut]).unwrap_err(),
            DecodeError::Truncated,
            "cut at {cut}"
        );
    }
    assert!(deserialize(&buf).is_ok());
}

#[test]
fn missing_record_is_truncated() {
    // The count field promises one record but none follows.
    let buf = header(1984, 40, 1);
    assert_eq!(deserialize(&buf).unwrap_err(), DecodeError::Truncated);
}

#[test]
fn stray_byte_in_name_is_invalid_encoding() {
    let mut buf = header(1984, 40, 1);
    push_record(&mut buf, 1, &[0xFF], &[0; 40]);
    assert_eq!(deserialize(&buf).unwrap_err(), DecodeError::InvalidEncoding);
}

#[test]
fn invalid_name_reported_before_missing_counts() {
    // The name is read and checked before the counts, so a bad name in a
    // buffer that also lacks counts reports the encoding, as a reader
    // working front to back would.
    let mut buf = header(1984, 40, 1);
    buf.push(1);
    buf.push(1);
    buf.push(0xFF);
    assert_eq!(deserialize(&buf).unwrap_err(), DecodeError::InvalidEncoding);
}

#[test]
fn multibyte_names_decode() {
    let mut buf = header(1984, 40, 1);
    push_record(&mut buf, 2, "Zoë".as_bytes(), &[1; 40]);
    let table = deserialize(&buf).unwrap();
    assert!(table.get(&"Zoë".to_string()).is_some());
}

#[test]
fn duplicate_names_overwrite_last_write_wins() {
    let mut buf = header(1984, 40, 2);
    push_record(&mut buf, 1, b"Kim", &[1; 40]);
    push_record(&mut buf, 2, b"Kim", &[5; 40]);
    let table = deserialize(&buf).unwrap();
    assert_eq!(table.len(), 1);
    let info = table.get(&"Kim".to_string()).unwrap();
    assert_eq!(info.sex, 2);
    assert_eq!(info.year_count, [5u32; 40]);
}

#[test]
fn trailing_bytes_are_ignored() {
    let mut buf = header(1984, 40, 1);
    push_record(&mut buf, 1, b"Ida", &[4; 40]);
    buf.extend_from_slice(b"leftover");
    let table = deserialize(&buf).unwrap();
    assert_eq!(table.len(), 1);
}

#[test]
fn absent_name_is_not_found() {
    let mut buf = header(1984, 40, 1);
    push_record(&mut buf, 1, b"Eva", &[1; 40]);
    let table = deserialize(&buf).unwrap();
    assert!(table.get(&"Ev".to_string()).is_none());
    assert!(table.get(&"Evaa".to_string()).is_none());
}

#[test]
fn round_trip_keeps_the_mapping() {
    let mut table = NameTable::new();
    table.insert("Ada".to_string(), Info { year_count: [7; 40], sex: 1 });
    let mut skew = [0u32; 40];
    skew[0] = 11;
    skew[39] = u32::MAX;
    table.insert("Bo".to_string(), Info { year_count: skew, sex: 2 });
    table.insert("Zoë".to_string(), Info { year_count: [0; 40], sex: 1 });

    let bytes = serialize(&table).unwrap();
    let back = deserialize(&bytes).unwrap();

    assert_eq!(back.len(), table.len());
    for name in ["Ada", "Bo", "Zoë"] {
        let want = table.get(&name.to_string()).unwrap();
        let got = back.get(&name.to_string()).unwrap();
        assert_eq!(got.sex, want.sex, "{name}");
        assert_eq!(got.year_count, want.year_count, "{name}");
    }
}

#[test]
fn round_trip_of_empty_table() {
    let table = NameTable::new();
    let bytes = serialize(&table).unwrap();
    assert_eq!(bytes, header(1984, 40, 0));
    assert_eq!(deserialize(&bytes).unwrap().len(), 0);
}

#[test]
fn round_trip_of_empty_name() {
    let mut table = NameTable::new();
    table.insert(String::new(), Info { year_count: [2; 40], sex: 1 });
    let bytes = serialize(&table).unwrap();
    let back = deserialize(&bytes).unwrap();
    assert_eq!(back.get(&String::new()).unwrap().year_count, [2u32; 40]);
}

#[test]
fn insert_replaces_under_the_same_name() {
    let mut table = NameTable::new();
    table.insert("Ada".to_string(), Info { year_count: [1; 40], sex: 1 });
    table.insert("Ada".to_string(), Info { year_count: [2; 40], sex: 2 });
    assert_eq!(table.len(), 1);
    let info = table.get(&"Ada".to_string()).unwrap();
    assert_eq!(info.sex, 2);
    assert_eq!(info.year_count, [2u32; 40]);
}

#[test]
fn oversized_name_refuses_to_serialize() {
    let mut table = NameTable::new();
    let long = "a".repeat(256);
    table.insert(long, Info { year_count: [0; 40], sex: 1 });
    assert!(serialize(&table).is_none());
}

#[test]
fn name_of_255_bytes_serializes() {
    let mut table = NameTable::new();
    let name = "b".repeat(255);
    table.insert(name.clone(), Info { year_count: [1; 40], sex: 1 });
    let bytes = serialize(&table).unwrap();
    let back = deserialize(&bytes).unwrap();
    assert!(back.get(&name).is_some());
}

#[test]
fn serialized_layout_is_byte_exact() {
    let mut table = NameTable::new();
    table.insert("Max".to_string(), Info { year_count: [2; 40], sex: 1 });
    let bytes = serialize(&table).unwrap();
    let mut want = header(1984, 40, 1);
    push_record(&mut want, 1, b"Max", &[2; 40]);
    assert_eq!(bytes, want);
}
