use twwh3_mods::calendar::{civil_date, fmt_date};
use twwh3_mods::model::FoundFile;
use twwh3_mods::store::{
    find_stored_pack, human_size, is_record_of_store, read_version_meta, recorded_sha256, sha256_sidecar,
    store_mod_version, stored_pack_path, to_hex, version_meta_path, versioned_mods_stats,
    write_version_meta, PackHash,
};

#[test]
fn dates_are_told_in_utc() {
    assert_eq!(fmt_date(0), "unknown");
    assert_eq!(fmt_date(1), "1970-01-01 00:00");
    assert_eq!(fmt_date(951_782_399), "2000-02-28 23:59");
    assert_eq!(fmt_date(951_782_400), "2000-02-29 00:00");
    assert_eq!(fmt_date(951_868_800), "2000-03-01 00:00");
    assert_eq!(fmt_date(1_700_000_000), "2023-11-14 22:13");
    assert_eq!(fmt_date(4_107_542_400), "2100-03-01 00:00");
    assert_eq!(fmt_date(4_107_542_399), "2100-02-28 23:59");
    assert_eq!(fmt_date(253_402_300_799), "9999-12-31 23:59");
}

#[test]
fn days_follow_each_other() {
    let mut last = (1970u64, 1u64, 1u64);
    for day in 1..300_000u64 {
        let d = civil_date(day);
        let now = (d.year, d.month, d.day);
        let next = now == (last.0, last.1, last.2 + 1)
            || now == (last.0, last.1 + 1, 1)
            || now == (last.0 + 1, 1, 1);
        assert!(next, "{last:?} {now:?}");
        last = now;
    }
}

fn by_floats(b: u64) -> String {
    const KIB: u64 = 1024;
    const MIB: u64 = 1024 * KIB;
    const GIB: u64 = 1024 * MIB;
    match b {
        _ if b >= GIB => format!("{:.1} GiB", b as f64 / GIB as f64),
        _ if b >= MIB => format!("{:.1} MiB", b as f64 / MIB as f64),
        _ if b >= KIB => format!("{:.0} KiB", b as f64 / KIB as f64),
        _ => format!("{b} B"),
    }
}

#[test]
fn sizes_read_like_rounded_doubles() {
    assert_eq!(human_size(0), "0 B");
    assert_eq!(human_size(1023), "1023 B");
    assert_eq!(human_size(1024), "1 KiB");
    assert_eq!(human_size(1536), "2 KiB");
    assert_eq!(human_size(2560), "2 KiB");
    assert_eq!(human_size(5 * 1024 * 1024 + 512 * 1024), "5.5 MiB");
    assert_eq!(human_size(1 << 30), "1.0 GiB");
    let mut values: Vec<u64> = (0..5000).collect();
    for shift in 10..64 {
        for d in 0..200u64 {
            values.push((1u64 << shift).wrapping_add(d.wrapping_mul(977)));
            values.push((1u64 << shift).wrapping_sub(d));
            values.push((1u64 << (shift - 1)).wrapping_mul(d | 1));
        }
    }
    // Halves of a tenth, where rounding has to decide.
    for k in 0..2000u64 {
        values.push((1 << 20) / 4 * k);
        values.push((1 << 30) / 4 * k);
        values.push(512 * k);
        values.push(u64::MAX - k * 1021);
        values.push((1 << 53) + k);
        values.push((1 << 60) + 128 * k);
    }
    for b in values {
        assert_eq!(human_size(b), by_floats(b), "{b}");
    }
}

#[test]
fn hashes_are_sha256_in_hex() {
    let none = PackHash::new();
    assert_eq!(
        none.pack_sha256(),
        "e3b0c44298fc1c149afbf4c8996fb92427ae41e4649b934ca495991b7852b855"
    );
    let mut abc = PackHash::new();
    abc.feed(b"abc");
    assert_eq!(
        abc.pack_sha256(),
        "ba7816bf8f01cfea414140de5dae2223b00361a396177a9cb410ff61f20015ad"
    );
    assert_eq!(to_hex(&vec![0, 9, 10, 255]), "00090aff");
}

#[test]
fn pieces_hash_like_the_whole() {
    let data: Vec<u8> = (0..100_000u32).map(|i| (i % 251) as u8).collect();
    let mut whole = PackHash::new();
    whole.feed(&data);
    let mut pieces = PackHash::new();
    for c in data.chunks(333) {
        pieces.feed(c);
    }
    assert_eq!(whole.pack_sha256(), pieces.pack_sha256());
}

#[test]
fn stored_files_have_their_places() {
    assert_eq!(version_meta_path("/v", "1", "9"), "/v/1/9/.meta.json");
    assert_eq!(
        stored_pack_path("/v", "1", "9", "/ws/1/a.pack"),
        Some("/v/1/9/a.pack".to_string())
    );
    assert_eq!(stored_pack_path("/v", "1", "9", "/"), None);
    assert_eq!(sha256_sidecar("/v/1/9/a.pack"), "/v/1/9/a.pack.sha256");
    let files = vec!["/v/1/9/a.png".to_string(), "/v/1/9/B.PACK".to_string()];
    assert_eq!(find_stored_pack(&files), Some("/v/1/9/B.PACK".to_string()));
    assert_eq!(find_stored_pack(&vec!["/v/x".to_string()]), None);
}

#[test]
fn sidecars_are_trimmed() {
    assert_eq!(recorded_sha256(Some(" ab12\n")), Some("ab12".to_string()));
    assert_eq!(recorded_sha256(Some(" \n")), None);
    assert_eq!(recorded_sha256(None), None);
}

#[test]
fn only_new_files_are_copied_through_a_temporary_name() {
    let file = |rel: &str| FoundFile {
        rel: rel.to_string(),
        abs: format!("/ws/1/{rel}"),
        size: Some(1),
    };
    let files = vec![file("a.pack"), file("movies/b.ca_vp8"), file("old.pack")];
    let steps = store_mod_version("/v", "1", "9", &files, &vec![false, false, true]);
    assert_eq!(steps.len(), 2);
    assert_eq!(steps[0].src, "/ws/1/a.pack");
    assert_eq!(steps[0].dst, "/v/1/9/a.pack");
    assert_eq!(steps[0].tmp, "/v/1/9/.a.pack.tmp");
    assert!(steps[0].is_pack);
    assert_eq!(steps[1].tmp, "/v/1/9/movies/.b.ca_vp8.tmp");
    assert!(!steps[1].is_pack);
    assert!(store_mod_version("/v", "1", "", &files, &vec![false, false, true]).is_empty());
}

#[test]
fn version_records_read_back() {
    let text = write_version_meta(true, false, "9", 1_700_000_000, 42, 5).unwrap();
    assert_eq!(read_version_meta(Some(&text)), (1_700_000_000, 42));
    assert!(text.contains("\"manifest\": \"9\""));
    assert!(text.contains("\"stored_at\": 5"));
    assert_eq!(read_version_meta(Some("{}")), (0, 0));
    assert_eq!(read_version_meta(Some("not json")), (0, 0));
    assert_eq!(read_version_meta(None), (0, 0));
}

#[test]
fn a_known_record_is_not_replaced_by_an_unknown_one() {
    assert!(write_version_meta(true, true, "9", 0, 0, 5).is_none());
    assert!(write_version_meta(true, true, "9", 7, 0, 5).is_some());
    assert!(write_version_meta(true, false, "9", 0, 0, 5).is_some());
    assert!(write_version_meta(false, false, "9", 7, 0, 5).is_none());
}

#[test]
fn the_store_is_added_up() {
    assert_eq!(versioned_mods_stats(&vec![vec![1, 2], vec![], vec![3]]), (3, 6));
    assert_eq!(versioned_mods_stats(&vec![]), (0, 0));
}

#[test]
fn the_store_knows_its_own_records() {
    assert!(is_record_of_store(".meta.json"));
    assert!(is_record_of_store("a.pack.sha256"));
    assert!(is_record_of_store("sub/A.PACK.sha256"));
    assert!(is_record_of_store("sub/.a.pack.tmp"));
    assert!(!is_record_of_store("a.pack"));
    assert!(!is_record_of_store("notes.sha256"));
    assert!(!is_record_of_store("sub/.meta.json"));
    assert!(!is_record_of_store("a.tmp"));
}
