use marline::palantir::types::{BlockID, Chunk, ChunkDigest, Fingerprint, SuperFeature, TierConfig};

#[test]
fn chunk_reports_its_bytes() {
    let c = Chunk::new(vec![1, 2, 3]);
    assert_eq!(c.as_bytes(), &[1, 2, 3]);
    assert_eq!(c.len(), 3);
    assert!(!c.is_empty());
    assert!(Chunk::new(Vec::new()).is_empty());
}

#[test]
fn super_feature_accessors() {
    let sf = SuperFeature::new(2, 0xdead_beef);
    assert_eq!(sf.tier_id(), 2);
    assert_eq!(sf.value(), 0xdead_beef);
}

#[test]
fn digest_keeps_features() {
    let d = ChunkDigest::new(vec![SuperFeature::new(0, 1), SuperFeature::new(1, 2)]);
    assert_eq!(d.super_features.len(), 2);
    assert_eq!(d.super_features[1].value(), 2);
}

#[test]
fn fingerprint_round_trips_bytes() {
    let mut h = [0u8; 32];
    h[0] = 9;
    h[31] = 7;
    let f = Fingerprint::new(h);
    assert_eq!(f.as_bytes(), &h);
}

#[test]
fn block_id_holds_hash() {
    let b = BlockID::new([3u8; 32]);
    assert_eq!(b.hash, [3u8; 32]);
}

#[test]
fn tier_config_constructors() {
    let t = TierConfig::new([4, 3, 2]);
    assert_eq!(t.tier_list, [4, 3, 2]);
    assert_eq!(t.features_num, None);
    let u = TierConfig::with_features_num([6], 12);
    assert_eq!(u.features_num, Some(12));
}

#[test]
fn metrics_configs_in_report_order() {
    let cfgs = marline::palantir::metrics_configs::configs();
    assert_eq!(cfgs.len(), 7);
    assert_eq!(cfgs[0].name, "N1_G2");
    assert_eq!(cfgs[1].name, "ODESS");
    assert_eq!(cfgs[1].features_num_override, Some(12));
    assert_eq!(cfgs[6].tier_list, vec![12, 6, 4, 3, 2]);
    assert!(cfgs[3].features_num_override.is_none());
}

#[test]
fn fingerprints_are_equal_exactly_when_their_bytes_are() {
    let a = Fingerprint::new([7u8; 32]);
    let b = Fingerprint::new([7u8; 32]);
    let mut other = [7u8; 32];
    other[31] = 8;
    let c = Fingerprint::new(other);
    assert_eq!(a, b);
    assert_ne!(a, c);
    assert_eq!(c.as_bytes(), &other);
}
