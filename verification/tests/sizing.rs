use shredstream_proxy::sizing::{
    sizing_of_name, PktRecvMemSizing, PktRecvTileMemConfig, ReceiverMemoryCapacityFromStrErr,
};

#[test]
fn test_pkt_recv_mem_sizing_from_str_aliases() {
    assert!(matches!(
        PktRecvMemSizing::from_str("xs"),
        Ok(PktRecvMemSizing::XSmall)
    ));
    assert!(matches!(
        PktRecvMemSizing::from_str("medium"),
        Ok(PktRecvMemSizing::Medium)
    ));
    assert!(matches!(
        PktRecvMemSizing::from_str("2xl"),
        Ok(PktRecvMemSizing::XXLarge)
    ));
    assert!(matches!(
        PktRecvMemSizing::from_str("5XL"),
        Ok(PktRecvMemSizing::XXXXXLarge)
    ));
}

#[test]
fn test_pkt_recv_mem_sizing_from_str_invalid() {
    let invalid = "huge";
    let err = PktRecvMemSizing::from_str(invalid).unwrap_err();
    assert_eq!(err, invalid);
}

#[test]
fn test_pkt_recv_tile_mem_config_default() {
    let cfg = PktRecvTileMemConfig::default();
    assert_eq!(cfg.frame_size, 2048);
    assert!(matches!(cfg.memory_size, PktRecvMemSizing::XSmall));
    assert!(!cfg.hugepage);
}

#[test]
fn every_name_is_read_in_any_case() {
    let names = [
        ("xsmall", PktRecvMemSizing::XSmall),
        ("XS", PktRecvMemSizing::XSmall),
        ("Small", PktRecvMemSizing::Small),
        ("s", PktRecvMemSizing::Small),
        ("M", PktRecvMemSizing::Medium),
        ("LARGE", PktRecvMemSizing::Large),
        ("l", PktRecvMemSizing::Large),
        ("xLarge", PktRecvMemSizing::XLarge),
        ("XL", PktRecvMemSizing::XLarge),
        ("xxlarge", PktRecvMemSizing::XXLarge),
        ("xxl", PktRecvMemSizing::XXLarge),
        ("xxxLarge", PktRecvMemSizing::XXXLarge),
        ("xxxl", PktRecvMemSizing::XXXLarge),
        ("3xl", PktRecvMemSizing::XXXLarge),
        ("xxxxlarge", PktRecvMemSizing::XXXXLarge),
        ("xxxxl", PktRecvMemSizing::XXXXLarge),
        ("4XL", PktRecvMemSizing::XXXXLarge),
        ("xxxxxlarge", PktRecvMemSizing::XXXXXLarge),
        ("XXXXXL", PktRecvMemSizing::XXXXXLarge),
    ];
    for (name, sizing) in names {
        assert_eq!(PktRecvMemSizing::from_str(name), Ok(sizing), "{name}");
        assert_eq!(name.parse::<PktRecvMemSizing>(), Ok(sizing), "{name}");
    }
}

#[test]
fn an_unknown_name_comes_back_as_it_was() {
    assert_eq!(PktRecvMemSizing::from_str("6XL"), Err("6XL".to_string()));
    assert_eq!(PktRecvMemSizing::from_str(""), Err(String::new()));
    // The Kelvin sign is lowered to `k`, which names nothing either.
    assert_eq!(
        PktRecvMemSizing::from_str("\u{212A}"),
        Err("\u{212A}".to_string())
    );
}

#[test]
fn names_are_matched_in_lower_case() {
    assert_eq!(sizing_of_name("xs"), Some(PktRecvMemSizing::XSmall));
    assert_eq!(sizing_of_name("XS"), None);
}

#[test]
fn each_size_is_twice_the_one_before() {
    let sizes = [
        PktRecvMemSizing::XSmall,
        PktRecvMemSizing::Small,
        PktRecvMemSizing::Medium,
        PktRecvMemSizing::Large,
        PktRecvMemSizing::XLarge,
        PktRecvMemSizing::XXLarge,
        PktRecvMemSizing::XXXLarge,
        PktRecvMemSizing::XXXXLarge,
        PktRecvMemSizing::XXXXXLarge,
    ];
    let mut expected: u64 = 128 << 20;
    for size in sizes {
        assert_eq!(size.bytes(), expected);
        expected *= 2;
    }
    assert_eq!(PktRecvMemSizing::default(), PktRecvMemSizing::XSmall);
}

#[test]
fn the_error_names_the_text() {
    let err = ReceiverMemoryCapacityFromStrErr("huge".to_string());
    assert_eq!(err.message(), "Invalid ReceiverMemoryCapacity: huge");
}
