use ip_geolocation::{cidr_depacker, format_ipv4, generate_csv, CIDRGroup, CIDRMap, CidrError};

fn group(label: &str, lines: &[&str]) -> CIDRGroup {
    CIDRGroup { label: label.to_string(), lines: lines.iter().map(|s| s.to_string()).collect() }
}

fn entries(m: &CIDRMap) -> Vec<(u32, u64, String)> {
    let mut out = Vec::new();
    let mut i = 0;
    while i < m.entry_count() {
        let (start, range, label) = m.get_entry(i);
        out.push((start, range, label.clone()));
        i += 1;
    }
    out
}

#[test]
fn parse_basic() {
    assert_eq!(cidr_depacker("1.2.3.4/24"), Ok((0x0102_0304, 256)));
    assert_eq!(cidr_depacker("0.0.0.0/32"), Ok((0, 1)));
    assert_eq!(cidr_depacker("255.255.255.255/32"), Ok((u32::MAX, 1)));
    assert_eq!(cidr_depacker("10.0.0.0/8"), Ok((0x0a00_0000, 1 << 24)));
}

#[test]
fn parse_prefix_zero_needs_wide_counter() {
    // 2^32 does not fit a 32-bit counter; the length is 64-bit.
    assert_eq!(cidr_depacker("0.0.0.0/0"), Ok((0, 1u64 << 32)));
}

#[test]
fn parse_rejects_malformed() {
    assert_eq!(cidr_depacker(""), Err(CidrError::MalformedCidr));
    assert_eq!(cidr_depacker("1.2.3.4"), Err(CidrError::MalformedCidr));
    assert_eq!(cidr_depacker("1.2.3/24"), Err(CidrError::MalformedCidr));
    assert_eq!(cidr_depacker("1.2.3.4.5/24"), Err(CidrError::MalformedCidr));
    assert_eq!(cidr_depacker("1.2.3.256/24"), Err(CidrError::MalformedCidr));
    assert_eq!(cidr_depacker("1.2.3.4/33"), Err(CidrError::MalformedCidr));
    assert_eq!(cidr_depacker("1.2.3.4/"), Err(CidrError::MalformedCidr));
    assert_eq!(cidr_depacker("1..3.4/24"), Err(CidrError::MalformedCidr));
    assert_eq!(cidr_depacker("a.2.3.4/24"), Err(CidrError::MalformedCidr));
    assert_eq!(cidr_depacker("1.2.3.4/24/9"), Err(CidrError::MalformedCidr));
    assert_eq!(cidr_depacker("1.2.3.4/2a"), Err(CidrError::MalformedCidr));
    assert_eq!(cidr_depacker(" 1.2.3.4/24"), Err(CidrError::MalformedCidr));
}

#[test]
fn format_dotted_quad() {
    assert_eq!(format_ipv4(0x0102_0304), "1.2.3.4");
    assert_eq!(format_ipv4(0), "0.0.0.0");
    assert_eq!(format_ipv4(u32::MAX), "255.255.255.255");
    assert_eq!(format_ipv4(0xc0a8_0001), "192.168.0.1");
}

#[test]
fn parse_format_round_trip() {
    for line in ["1.2.3.4/24", "0.0.0.0/0", "203.0.113.7/32", "10.20.30.40/12"] {
        let (addr, _) = cidr_depacker(line).unwrap();
        let quad = line.split('/').next().unwrap();
        assert_eq!(format_ipv4(addr), quad);
    }
}

#[test]
fn insert_disjoint_after_any_sequence() {
    let mut m = CIDRMap::empty();
    assert!(m.insert(100, 50, "a"));
    assert!(m.insert(10, 20, "b"));
    assert!(m.insert(200, 8, "a"));
    assert!(m.insert(150, 50, "a"));
    let es = entries(&m);
    for w in es.windows(2) {
        let (s0, r0, _) = &w[0];
        let (s1, _, _) = &w[1];
        assert!(*s0 as u64 + *r0 <= *s1 as u64, "entries overlap or are unsorted");
    }
}

#[test]
fn insert_idempotent() {
    let mut once = CIDRMap::empty();
    assert!(once.insert(0, 256, "a"));
    let mut twice = CIDRMap::empty();
    assert!(twice.insert(0, 256, "a"));
    assert!(twice.insert(0, 256, "a"));
    assert_eq!(entries(&once), entries(&twice));
}

#[test]
fn contiguous_same_label_blocks_merge() {
    // 0.0.0.0/24 then 0.0.1.0/24: contiguous, one entry of 512 addresses
    let mut m = CIDRMap::empty();
    assert!(m.insert(0, 256, "a"));
    assert!(m.insert(256, 256, "a"));
    assert_eq!(entries(&m), vec![(0, 512, "a".to_string())]);
}

#[test]
fn bridging_merges_all_three() {
    // [0/25] and [192/26] with a gap, then [128/26] filling it
    let mut m = CIDRMap::empty();
    assert!(m.insert(0, 128, "a"));
    assert!(m.insert(192, 64, "a"));
    assert_eq!(m.entry_count(), 2);
    assert!(m.insert(128, 64, "a"));
    assert_eq!(entries(&m), vec![(0, 256, "a".to_string())]);
}

#[test]
fn different_label_adjacency_kept() {
    let mut m = CIDRMap::empty();
    assert!(m.insert(0, 128, "a"));
    assert!(m.insert(128, 128, "b"));
    assert_eq!(entries(&m), vec![(0, 128, "a".to_string()), (128, 128, "b".to_string())]);
}

#[test]
fn overlap_with_other_label_is_rejected() {
    let mut m = CIDRMap::empty();
    assert!(m.insert(0, 128, "a"));
    assert!(!m.insert(64, 128, "b"));
    assert_eq!(entries(&m), vec![(0, 128, "a".to_string())]);
}

#[test]
fn point_query_remaining_length() {
    let mut m = CIDRMap::empty();
    assert!(m.insert(100, 50, "a"));
    let hit = m.query_ipv4(120).unwrap();
    assert_eq!(hit.range, 30);
    assert_eq!(hit.label, "a");
    let at_start = m.query_ipv4(100).unwrap();
    assert_eq!(at_start.range, 50);
    let at_last = m.query_ipv4(149).unwrap();
    assert_eq!(at_last.range, 1);
}

#[test]
fn point_query_in_gap_returns_nothing() {
    let mut m = CIDRMap::empty();
    assert!(m.insert(100, 50, "a"));
    assert!(m.query_ipv4(99).is_none());
    assert!(m.query_ipv4(150).is_none());
    assert!(m.query_ipv4(0).is_none());
}

#[test]
fn builder_folds_groups() {
    let groups = vec![
        group("isp1", &["0.0.0.0/25", ""]),
        group("isp2", &["0.0.0.128/25"]),
    ];
    let m = CIDRMap::new(&groups).unwrap();
    assert_eq!(
        entries(&m),
        vec![(0, 128, "isp1".to_string()), (128, 128, "isp2".to_string())]
    );
    assert_eq!(m.query_ipv4(5).unwrap().label, "isp1");
    assert_eq!(m.query_ipv4(200).unwrap().label, "isp2");
}

#[test]
fn builder_merges_within_group() {
    let groups = vec![group("isp1", &["0.0.0.0/25", "0.0.0.128/25"])];
    let m = CIDRMap::new(&groups).unwrap();
    assert_eq!(entries(&m), vec![(0, 256, "isp1".to_string())]);
}

#[test]
fn builder_rejects_malformed_line() {
    let groups = vec![group("isp1", &["0.0.0.0/25", "not-a-cidr"])];
    match CIDRMap::new(&groups) {
        Err(e) => assert_eq!(e, CidrError::MalformedCidr),
        Ok(_) => panic!("malformed line was accepted"),
    }
}

#[test]
fn builder_rejects_block_past_address_space() {
    // a /0 block not at address zero reaches past the 32-bit space
    let groups = vec![group("isp1", &["0.0.0.1/0"])];
    match CIDRMap::new(&groups) {
        Err(e) => assert_eq!(e, CidrError::RangeOverflow),
        Ok(_) => panic!("overlong block was accepted"),
    }
}

#[test]
fn builder_accepts_whole_space_block() {
    let groups = vec![group("isp1", &["0.0.0.0/0"])];
    let m = CIDRMap::new(&groups).unwrap();
    assert_eq!(entries(&m), vec![(0, 1u64 << 32, "isp1".to_string())]);
    assert_eq!(m.query_ipv4(u32::MAX).unwrap().range, 1);
}

#[test]
fn cross_reference_single_row() {
    // coarse {0.0.0.0/24 = ISP1}, fine {0.0.0.0/25 = CityA}
    let coarse = CIDRMap::new(&vec![group("ISP1", &["0.0.0.0/24"])]).unwrap();
    let fine = CIDRMap::new(&vec![group("CityA", &["0.0.0.0/25"])]).unwrap();
    let (rows, logs) = generate_csv(&fine, &coarse);
    assert_eq!(rows, vec!["0.0.0.0,0.0.0.127,CityA-ISP1".to_string()]);
    assert!(logs.is_empty());
}

#[test]
fn cross_reference_split_at_coarse_boundary() {
    // coarse {0.0.0.0/25 = ISP1, 0.0.0.128/25 = ISP2}, fine {0.0.0.0/24 = CityA}
    let coarse =
        CIDRMap::new(&vec![group("ISP1", &["0.0.0.0/25"]), group("ISP2", &["0.0.0.128/25"])])
            .unwrap();
    let fine = CIDRMap::new(&vec![group("CityA", &["0.0.0.0/24"])]).unwrap();
    let (rows, logs) = generate_csv(&fine, &coarse);
    assert_eq!(
        rows,
        vec![
            "0.0.0.0,0.0.0.127,CityA-ISP1".to_string(),
            "0.0.0.128,0.0.0.255,CityA-ISP2".to_string(),
        ]
    );
    assert!(logs.is_empty());
}

#[test]
fn cross_reference_unmatched_tail() {
    // fine block fully outside coarse coverage: one diagnostic, zero rows
    let coarse = CIDRMap::new(&vec![group("ISP1", &["10.0.0.0/24"])]).unwrap();
    let fine = CIDRMap::new(&vec![group("CityA", &["1.0.0.0/24"])]).unwrap();
    let (rows, logs) = generate_csv(&fine, &coarse);
    assert!(rows.is_empty());
    assert_eq!(logs, vec!["CityA-1.0.0.0/24 is not converted completely!".to_string()]);
}

#[test]
fn cross_reference_partial_tail() {
    // coarse covers only the first half of the fine block
    let coarse = CIDRMap::new(&vec![group("ISP1", &["0.0.0.0/25"])]).unwrap();
    let fine = CIDRMap::new(&vec![group("CityA", &["0.0.0.0/24"])]).unwrap();
    let (rows, logs) = generate_csv(&fine, &coarse);
    assert_eq!(rows, vec!["0.0.0.0,0.0.0.127,CityA-ISP1".to_string()]);
    // remainder of 128 addresses at 0.0.0.128 reconstructs prefix 25
    assert_eq!(logs, vec!["CityA-0.0.0.128/25 is not converted completely!".to_string()]);
}

#[test]
fn cross_reference_rows_in_ascending_order() {
    let coarse = CIDRMap::new(&vec![
        group("ISP1", &["0.0.0.0/26"]),
        group("ISP2", &["0.0.0.64/26"]),
        group("ISP3", &["0.0.0.128/25"]),
    ])
    .unwrap();
    let fine =
        CIDRMap::new(&vec![group("CityA", &["0.0.0.0/25"]), group("CityB", &["0.0.0.128/25"])])
            .unwrap();
    let (rows, logs) = generate_csv(&fine, &coarse);
    assert_eq!(
        rows,
        vec![
            "0.0.0.0,0.0.0.63,CityA-ISP1".to_string(),
            "0.0.0.64,0.0.0.127,CityA-ISP2".to_string(),
            "0.0.0.128,0.0.0.255,CityB-ISP3".to_string(),
        ]
    );
    assert!(logs.is_empty());
}

#[test]
fn diagnostic_prefix_rounds_down_for_odd_remainders() {
    // an uncovered remainder of 192 addresses is not a power of two:
    // floor(log2(192)) == 7, so the reconstructed prefix is 25
    let coarse = CIDRMap::new(&vec![group("ISP1", &["0.0.0.0/26"])]).unwrap();
    let fine = CIDRMap::new(&vec![group("CityA", &["0.0.0.0/24"])]).unwrap();
    let (rows, logs) = generate_csv(&fine, &coarse);
    assert_eq!(rows, vec!["0.0.0.0,0.0.0.63,CityA-ISP1".to_string()]);
    assert_eq!(logs, vec!["CityA-0.0.0.64/25 is not converted completely!".to_string()]);
}
