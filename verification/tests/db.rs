use ouey::db::{lookup, parse_db, parse_mac_line, parse_vendor_line, str_starts_with, OuiDb, OuiRecord};
use ouey::mac::normalize_mac_str;

#[test]
fn parse_empty_stream() {
    let lines: Vec<String> = Vec::new();
    let db = parse_db(&lines);
    assert_eq!(0, db.records.len());
}

#[test]
fn parse_comments_and_blanks_only() {
    let lines = vec![
        "# This file is part of a database\n".to_string(),
        "\n".to_string(),
        "# another comment\n".to_string(),
        "\n".to_string(),
        "\n".to_string(),
    ];
    let db = parse_db(&lines);
    assert_eq!(0, db.records.len());
}

#[test]
fn parse_single_block() {
    let lines = vec![
        "OUI:12-34-56*\n".to_string(),
        " ID_OUI_FROM_DATABASE=Acme Corp\n".to_string(),
    ];
    let db = parse_db(&lines);
    assert_eq!(1, db.records.len());
    assert_eq!("123456", db.records[0].mac_str);
    assert_eq!("Acme Corp", db.records[0].vendor);
}

#[test]
fn mac_line_without_star_uses_whole_remainder() {
    let mut rec = OuiRecord {
        mac_str: String::new(),
        vendor: String::new(),
    };
    parse_mac_line(&"OUI:1234ab\n".to_string(), &mut rec);
    assert_eq!("1234ab", rec.mac_str);
}

#[test]
fn mac_line_discards_text_from_star_onward() {
    let mut rec = OuiRecord {
        mac_str: String::new(),
        vendor: String::new(),
    };
    parse_mac_line(&"OUI:AA:BB*CC:DD\n".to_string(), &mut rec);
    assert_eq!("aabb", rec.mac_str);
}

#[test]
fn vendor_line_extracts_after_fixed_field() {
    let mut rec = OuiRecord {
        mac_str: String::new(),
        vendor: String::new(),
    };
    parse_vendor_line(&" ID_OUI_FROM_DATABASE=  Spaced Vendor \n".to_string(), &mut rec);
    assert_eq!("  Spaced Vendor ", rec.vendor);
}

#[test]
fn vendor_line_too_short_yields_empty_vendor() {
    let mut rec = OuiRecord {
        mac_str: String::new(),
        vendor: "overwritten".to_string(),
    };
    parse_vendor_line(&"short\n".to_string(), &mut rec);
    assert_eq!("", rec.vendor);
}

#[test]
fn stream_ends_after_mac_line() {
    let lines = vec!["OUI:aabbcc*\n".to_string()];
    let db = parse_db(&lines);
    assert_eq!(1, db.records.len());
    assert_eq!("aabbcc", db.records[0].mac_str);
    assert_eq!("", db.records[0].vendor);
}

#[test]
fn final_unterminated_short_line_starts_a_record() {
    // A line with content but no terminator is not blank, however short:
    // it opens a record block, here with nothing after it, so the record
    // keeps an empty prefix and an empty vendor.
    let lines = vec!["x".to_string()];
    let db = parse_db(&lines);
    assert_eq!(1, db.records.len());
    assert_eq!("", db.records[0].mac_str);
    assert_eq!("", db.records[0].vendor);
}

#[test]
fn lone_hash_line_is_a_comment() {
    let lines = vec!["#".to_string()];
    let db = parse_db(&lines);
    assert_eq!(0, db.records.len());
}

#[test]
fn vendor_line_is_read_unconditionally() {
    // Even a line that looks like a comment serves as the vendor line of
    // the block its MAC line opened.
    let lines = vec![
        "OUI:aa*\n".to_string(),
        "#234567890123456789012VendorX\n".to_string(),
    ];
    let db = parse_db(&lines);
    assert_eq!(1, db.records.len());
    assert_eq!("VendorX", db.records[0].vendor);
}

#[test]
fn blank_lines_between_blocks_are_skipped() {
    let lines = vec![
        "\n".to_string(),
        "OUI:aa*\n".to_string(),
        " ID_OUI_FROM_DATABASE=First\n".to_string(),
        "\n".to_string(),
        "\n".to_string(),
        "# comment between blocks\n".to_string(),
        "OUI:bb*\n".to_string(),
        " ID_OUI_FROM_DATABASE=Second\n".to_string(),
    ];
    let db = parse_db(&lines);
    assert_eq!(2, db.records.len());
    assert_eq!("aa", db.records[0].mac_str);
    assert_eq!("First", db.records[0].vendor);
    assert_eq!("bb", db.records[1].mac_str);
    assert_eq!("Second", db.records[1].vendor);
}

#[test]
fn lookup_is_order_preserving() {
    let db = OuiDb {
        records: vec![
            OuiRecord {
                mac_str: "12".to_string(),
                vendor: "First".to_string(),
            },
            OuiRecord {
                mac_str: "1234".to_string(),
                vendor: "Second".to_string(),
            },
        ],
    };
    let out = lookup(&db, &"123456".to_string());
    assert_eq!(vec!["First".to_string(), "Second".to_string()], out);
}

#[test]
fn lookup_keeps_duplicates() {
    let db = OuiDb {
        records: vec![
            OuiRecord {
                mac_str: "ab".to_string(),
                vendor: "Same".to_string(),
            },
            OuiRecord {
                mac_str: "ab".to_string(),
                vendor: "Same".to_string(),
            },
        ],
    };
    let out = lookup(&db, &"abcdef".to_string());
    assert_eq!(vec!["Same".to_string(), "Same".to_string()], out);
}

#[test]
fn empty_prefix_matches_any_nonempty_query() {
    let db = OuiDb {
        records: vec![OuiRecord {
            mac_str: String::new(),
            vendor: "Fallback".to_string(),
        }],
    };
    let out = lookup(&db, &"ab".to_string());
    assert_eq!(vec!["Fallback".to_string()], out);
}

#[test]
fn lookup_excludes_non_matching_records() {
    let db = OuiDb {
        records: vec![OuiRecord {
            mac_str: "ff".to_string(),
            vendor: "Elsewhere".to_string(),
        }],
    };
    let out = lookup(&db, &"123456".to_string());
    assert_eq!(0, out.len());
}

#[test]
fn starts_with_checks_prefix() {
    assert!(str_starts_with(
        &"123456abcdef".to_string(),
        &"123456".to_string()
    ));
    assert!(str_starts_with(&"123456".to_string(), &"".to_string()));
    assert!(!str_starts_with(&"12".to_string(), &"1234".to_string()));
    assert!(!str_starts_with(
        &"123456".to_string(),
        &"abcdef".to_string()
    ));
}

#[test]
fn end_to_end_scenario() {
    let lines = vec![
        "xxxx1234:56*something\n".to_string(),
        " ID_OUI_FROM_DATABASE=Acme Corp\n".to_string(),
    ];
    let db = parse_db(&lines);
    assert_eq!(1, db.records.len());
    assert_eq!("123456", db.records[0].mac_str);

    let query = normalize_mac_str(&"12:34:56:AB:CD:EF".to_string());
    assert_eq!("123456abcdef", query);

    let out = lookup(&db, &query);
    assert_eq!(vec!["Acme Corp".to_string()], out);
    assert_eq!(
        "123456abcdef\tAcme Corp",
        format!("{}\t{}", query, out[0])
    );
}
