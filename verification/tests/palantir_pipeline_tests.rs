use vstd::seq::Seq;
use std::hash::{DefaultHasher, Hasher};
use marline::heuristic_index::SearchConfig;
use marline::palantir::encoder::PalantirEncoder;
use marline::palantir::lifecycle_manager::{DropRule, LifecycleManager, MetricUpdate};
use marline::palantir::metadata_manager::{AnySFTable, MetadataManager};
use marline::palantir::mock_rocksdb::MockRocksDBMap;
use marline::palantir::palantir_scrubber::{delta_pays_off, ChunkPlan, PalantirScrubber};
use marline::palantir::sf_generator::PalantirHasher;
use marline::palantir::tables::{FPTable, SFTable};
use marline::palantir::types::{BlockID, Chunk, SuperFeature, SuperFeatureGenerator, TierConfig};

/// A stand-in 32-byte fingerprint: the chunk's length and its first bytes.
fn hash_data(data: &[u8]) -> [u8; 32] {
    let mut h = [0u8; 32];
    h[..8].copy_from_slice(&(data.len() as u64).to_le_bytes());
    for (i, b) in data.iter().take(24).enumerate() {
        h[8 + i] = *b;
    }
    h
}

/// A gear table filled by the splitmix64 sequence.
fn gear_table() -> [u64; 256] {
    let mut table = [0u64; 256];
    let mut state: u64 = 0x9E37_79B9_7F4A_7C15;
    for slot in table.iter_mut() {
        state = state.wrapping_add(0x9E37_79B9_7F4A_7C15);
        let mut z = state;
        z = (z ^ (z >> 30)).wrapping_mul(0xBF58_476D_1CE4_E5B9);
        z = (z ^ (z >> 27)).wrapping_mul(0x94D0_49BB_1331_11EB);
        *slot = z ^ (z >> 31);
    }
    table
}

fn sfs(tier: u8, vals: &[u32]) -> Vec<SuperFeature> {
    vals.iter().map(|v| SuperFeature::new(tier, *v)).collect()
}

/// Thirteen super-features for tiers of widths 3, 4 and 6.
fn three_tier_sfs(base: u32) -> Vec<SuperFeature> {
    let mut v = sfs(0, &[base, base + 1, base + 2]);
    v.extend(sfs(1, &[base + 10, base + 11, base + 12, base + 13]));
    v.extend(sfs(2, &[base + 20, base + 21, base + 22, base + 23, base + 24, base + 25]));
    v
}

#[test]
fn identical_chunks() {
    let sf_gen = PalantirHasher::new(7, vec![4, 3, 2]);
    let tier_config = TierConfig::new([4, 3, 2]);
    let lifecycle_configs = LifecycleManager::<3>::default_configs();
    let mut mm = MetadataManager::<[u8; 32], 3>::new(tier_config, lifecycle_configs, &SearchConfig::default());

    let base: Vec<u8> = b"This is a base chunk for the Palantir similarity pipeline. \
                           It has enough bytes for the gear-hash rolling hash to produce \
                           stable super-features across multiple tiers."
        .to_vec();
    let hash = hash_data(&base);

    let chunk = Chunk::new(base);
    let gear = gear_table();
    let sfs = sf_gen.generate(&chunk, &gear);
    mm.add_block(hash, &sfs, BlockID::new(hash));

    let found = mm.lookup_fingerprint(&hash);
    assert!(found.is_some(), "Identical chunk not found via fingerprint lookup");
}

#[test]
fn hasher_layout_follows_tiers() {
    let sf_gen = PalantirHasher::new(7, vec![4, 3, 2]);
    let chunk = Chunk::new((0..4096u32).map(|i| (i * 31 % 251) as u8).collect());
    let out = sf_gen.generate(&chunk, &gear_table());
    // 12 raw features: 3 groups of 4, 4 groups of 3, 6 groups of 2.
    assert_eq!(out.len(), 13);
    let tiers: Vec<u8> = out.iter().map(|s| s.tier_id()).collect();
    assert_eq!(tiers, vec![0, 0, 0, 1, 1, 1, 1, 2, 2, 2, 2, 2, 2]);
}

#[test]
fn hasher_with_features_num_overrides_lcm() {
    let sf_gen = PalantirHasher::with_features_num(7, vec![6], 12);
    let chunk = Chunk::new(vec![7u8; 300]);
    let out = sf_gen.generate(&chunk, &gear_table());
    assert_eq!(out.len(), 2);
}

#[test]
fn raw_features_start_at_max_without_samples() {
    let sf_gen = PalantirHasher::with_features_num(7, vec![2], 4);
    // An empty chunk never samples the fingerprint.
    let raw = sf_gen.raw_features(&[], &gear_table());
    assert_eq!(raw, vec![u64::MAX; 4]);
}

#[test]
fn raw_features_take_minimum_projection_when_sampled() {
    // With a zero gear table the fingerprint stays zero, so every byte
    // samples, and each projection is just the byte value.
    let sf_gen = PalantirHasher::with_features_num(3, vec![1], 2);
    let raw = sf_gen.raw_features(&[9, 4, 6], &[0u64; 256]);
    assert_eq!(raw, vec![4, 4]);
}

#[test]
fn same_chunk_gives_same_super_features() {
    let sf_gen = PalantirHasher::new(5, vec![3, 2]);
    let gear = gear_table();
    let chunk = Chunk::new((0..2000u32).map(|i| (i % 97) as u8).collect());
    let a = sf_gen.generate(&chunk, &gear);
    let b = sf_gen.generate(&chunk, &gear);
    assert_eq!(a, b);
}

#[test]
fn fp_table_insert_lookup_remove() {
    let mut t: FPTable<u64> = FPTable::new();
    assert!(t.is_empty());
    t.insert(7, BlockID::new(7));
    t.insert(9, BlockID::new(9));
    assert_eq!(t.len(), 2);
    assert!(t.contains(&7));
    assert_eq!(t.lookup(&9), Some(&BlockID::new(9)));
    assert_eq!(t.remove(&7), Some(BlockID::new(7)));
    assert_eq!(t.remove(&7), None);
    assert!(!t.contains(&7));
    assert_eq!(t.len(), 1);
}

#[test]
fn sf_table_insert_and_nearest() {
    let mut t: SFTable<u64, 3> = SFTable::new(SearchConfig::default());
    assert!(t.is_empty());
    t.insert(&BlockID::new(1), &sfs(0, &[30, 10, 20]), 5);
    t.insert(&BlockID::new(2), &sfs(0, &[40, 50, 60]), 6);
    assert_eq!(t.len(), 6);
    assert_eq!(t.nearest(&sfs(0, &[10, 20, 99])), Some(BlockID::new(1)));
    assert_eq!(t.nearest(&sfs(0, &[50, 98, 99])), Some(BlockID::new(2)));
    assert_eq!(t.nearest(&sfs(0, &[97, 98, 99])), None);
    // A query of the wrong width finds nothing.
    assert_eq!(t.nearest(&sfs(0, &[10, 20])), None);
    assert_eq!(t.get_key_metric(&BlockID::new(1)), Some(5));
}

#[test]
fn sf_table_get_with_upd_metric_updates_found_block() {
    let mut t: SFTable<u64, 2> = SFTable::new(SearchConfig::default());
    t.insert(&BlockID::new(1), &sfs(0, &[1, 2]), 5);
    let found = t.get_with_upd_metric(&sfs(0, &[1, 2]), MetricUpdate::Zero);
    assert_eq!(found, Some(BlockID::new(1)));
    assert_eq!(t.get_key_metric(&BlockID::new(1)), Some(0));
    assert_eq!(t.get_with_upd_metric(&sfs(0, &[8, 9]), MetricUpdate::Zero), None);
}

#[test]
fn sf_table_update_and_clean_ages_and_drops() {
    let mut t: SFTable<u64, 1> = SFTable::new(SearchConfig::default());
    t.insert(&BlockID::new(1), &sfs(0, &[1]), 1);
    t.insert(&BlockID::new(2), &sfs(0, &[2]), 3);
    t.update_and_clean(MetricUpdate::Decrement, DropRule::WhenZero).unwrap();
    assert_eq!(t.get_key_metric(&BlockID::new(1)), None);
    assert_eq!(t.get_key_metric(&BlockID::new(2)), Some(2));
}

#[test]
fn sf_table_remove_sf_and_block_drop_metrics_only() {
    let mut t: SFTable<u64, 2> = SFTable::new(SearchConfig::default());
    t.insert(&BlockID::new(1), &sfs(0, &[1, 2]), 4);
    t.insert(&BlockID::new(2), &sfs(0, &[2, 3]), 4);
    t.insert(&BlockID::new(3), &sfs(0, &[5, 6]), 4);
    t.remove_sf(&SuperFeature::new(0, 2));
    assert_eq!(t.get_key_metric(&BlockID::new(1)), None);
    assert_eq!(t.get_key_metric(&BlockID::new(2)), None);
    assert_eq!(t.get_key_metric(&BlockID::new(3)), Some(4));
    t.remove_block(&BlockID::new(3));
    assert_eq!(t.get_key_metric(&BlockID::new(3)), None);
    // The postings keep no record of a block's features.
    assert_eq!(t.len(), 5);
}

#[test]
fn any_sf_table_from_index_bounds() {
    assert!(AnySFTable::<u64>::from_index(0, &SearchConfig::default()).is_none());
    assert!(AnySFTable::<u64>::from_index(13, &SearchConfig::default()).is_none());
    let mut t = AnySFTable::<u64>::from_index(4, &SearchConfig::default()).unwrap();
    assert!(t.is_empty());
    t.insert(&BlockID::new(8), &sfs(1, &[1, 2, 3, 4]), 2);
    assert_eq!(t.len(), 4);
    assert_eq!(t.nearest(&sfs(1, &[1, 2, 3, 9])), Some(BlockID::new(8)));
    assert_eq!(t.get_with_upd_metric(&sfs(1, &[4, 5, 6, 7]), MetricUpdate::Keep), Some(BlockID::new(8)));
    t.update_and_clean(MetricUpdate::Zero, DropRule::WhenZero).unwrap();
    assert_eq!(t.get_with_upd_metric(&sfs(1, &[1, 2, 3, 4]), MetricUpdate::Keep), Some(BlockID::new(8)));
}

#[test]
fn metadata_lookup_searches_tiers_in_order() {
    let mut mm = MetadataManager::<u64, 3>::new(
        TierConfig::new([4, 3, 2]),
        LifecycleManager::<3>::default_configs(),
        &SearchConfig::default(),
    );
    mm.add_block(1, &three_tier_sfs(100), BlockID::new(1));
    assert_eq!(mm.fp_table_size(), 1);
    assert_eq!(mm.sf_table_size(), 13);
    // Only the finest tier matches.
    let mut query = three_tier_sfs(500);
    query[12] = SuperFeature::new(2, 125);
    assert_eq!(mm.lookup_super_features(&query), Some((BlockID::new(1), 2)));
    // The coarsest tier answers first.
    assert_eq!(mm.lookup_super_features(&three_tier_sfs(100)), Some((BlockID::new(1), 0)));
    assert_eq!(mm.lookup_super_features(&three_tier_sfs(900)), None);
}

#[test]
fn metadata_finish_version_expires_aging_tiers() {
    let mut mm = MetadataManager::<u64, 3>::new(
        TierConfig::new([4, 3, 2]),
        LifecycleManager::<3>::default_configs(),
        &SearchConfig::default(),
    );
    mm.add_block(1, &three_tier_sfs(100), BlockID::new(1));
    // The finest tier keeps entries for three versions.
    let mut query = three_tier_sfs(500);
    query[12] = SuperFeature::new(2, 125);
    for _ in 0..3 {
        mm.finish_version().unwrap();
    }
    assert_eq!(mm.lookup_super_features(&query), Some((BlockID::new(1), 2)));
    assert_eq!(mm.lookup_fingerprint(&1), Some(&BlockID::new(1)));
}

/// Encodes a chunk as its byte-wise difference from the base.
struct XorEncoder;

impl PalantirEncoder for XorEncoder {
    // A specification item: only the verifier reads it, and it is never run.
    fn spec_encode(&self, _new_chunk: Seq<u8>, _base_chunk: Seq<u8>) -> Seq<u8> {
        unreachable!()
    }

    fn encode(&self, new_chunk: &[u8], base_chunk: &[u8]) -> Vec<u8> {
        new_chunk.iter().enumerate().map(|(i, b)| b ^ base_chunk.get(i).copied().unwrap_or(0)).collect()
    }
}

/// Gives every chunk the same super-features.
struct FixedGenerator;

impl SuperFeatureGenerator for FixedGenerator {
    // A specification item: only the verifier reads it, and it is never run.
    fn spec_generate(&self, _data: Seq<u8>) -> Seq<SuperFeature> {
        unreachable!()
    }

    fn generate(&self, _chunk: &Chunk) -> Vec<SuperFeature> {
        three_tier_sfs(7)
    }
}

#[test]
fn scrubber_stores_similar_chunk_as_delta() {
    let mut scrubber = PalantirScrubber::<FixedGenerator, [u8; 32], XorEncoder, 3>::new(
        FixedGenerator,
        XorEncoder,
        TierConfig::new([4, 3, 2]),
        LifecycleManager::<3>::default_configs(),
        SearchConfig::default(),
    );
    let mut target_map = MockRocksDBMap::new();

    let base: Vec<u8> = (0..8192).map(|i| (i % 251) as u8).collect();
    let mut similar = base.clone();
    for item in similar[4096..4916].iter_mut() {
        *item = item.wrapping_add(7);
    }
    let hash_base = hash_data(&base);
    let mut hash_similar = hash_data(&similar);
    hash_similar[31] ^= 1;

    let plan = scrubber.plan_chunk(&hash_base, &Chunk::new(base.clone())).unwrap();
    assert!(matches!(plan, ChunkPlan::Raw { .. }));
    let n = scrubber.complete_chunk(hash_base, &base, plan, None, &mut target_map).unwrap();
    assert_eq!(n, base.len());

    let plan = scrubber.plan_chunk(&hash_similar, &Chunk::new(similar.clone())).unwrap();
    let base_data = match &plan {
        ChunkPlan::Delta { base: b, chain, root, .. } => {
            assert_eq!(b, &hash_base);
            assert!(chain.is_empty());
            assert_eq!(root, &hash_base);
            target_map.get(root)
        }
        _ => panic!("expected a delta plan"),
    };
    let n = scrubber.complete_chunk(hash_similar, &similar, plan, base_data, &mut target_map).unwrap();
    assert_eq!(n, similar.len());

    assert_eq!(target_map.len(), 2);
    assert_eq!(scrubber.delta_stored(), 1);
    assert_eq!(scrubber.delta_bases().get(&hash_similar), Some(&hash_base));
    assert!(target_map.get(&hash_similar).unwrap().len() < similar.len());
    assert_eq!(scrubber.fp_table_size(), 2);

    // A known chunk is only counted.
    let plan = scrubber.plan_chunk(&hash_base, &Chunk::new(base.clone())).unwrap();
    assert!(matches!(plan, ChunkPlan::Known));
    assert_eq!(scrubber.complete_chunk(hash_base, &base, plan, None, &mut target_map).unwrap(), 0);
    assert_eq!(scrubber.fp_table_size(), 2);

    // The chain of a delta leads back to its base.
    let (chain, root) = scrubber.delta_chain(&hash_similar);
    assert_eq!(chain, vec![hash_similar]);
    assert_eq!(root, hash_base);
    scrubber.update().unwrap();
}

#[test]
fn scrubber_rejects_stale_plan() {
    let mut scrubber = PalantirScrubber::<FixedGenerator, [u8; 32], XorEncoder, 3>::new(
        FixedGenerator,
        XorEncoder,
        TierConfig::new([4, 3, 2]),
        LifecycleManager::<3>::default_configs(),
        SearchConfig::default(),
    );
    let mut target_map = MockRocksDBMap::new();
    let data = vec![1u8; 64];
    let hash = hash_data(&data);
    let plan = scrubber.plan_chunk(&hash, &Chunk::new(data.clone())).unwrap();
    scrubber.complete_chunk(hash, &data, plan, None, &mut target_map).unwrap();
    let again = ChunkPlan::Raw { super_features: three_tier_sfs(7) };
    assert!(scrubber.complete_chunk(hash, &data, again, None, &mut target_map).is_err());
    let short = ChunkPlan::Raw { super_features: three_tier_sfs(7)[..5].to_vec() };
    assert!(scrubber.complete_chunk([9u8; 32], &data, short, None, &mut target_map).is_err());
    assert_eq!(target_map.len(), 1);
}

#[test]
fn delta_pays_off_below_nine_tenths() {
    assert!(delta_pays_off(89, 100, 9, 10));
    assert!(!delta_pays_off(90, 100, 9, 10));
    assert!(!delta_pays_off(0, 0, 9, 10));
}

fn fixed_scrubber() -> PalantirScrubber<FixedGenerator, [u8; 32], XorEncoder, 3> {
    PalantirScrubber::<FixedGenerator, [u8; 32], XorEncoder, 3>::new(
        FixedGenerator,
        XorEncoder,
        TierConfig::new([4, 3, 2]),
        LifecycleManager::<3>::default_configs(),
        SearchConfig::default(),
    )
}

#[test]
fn stored_delta_is_the_zstd_frame_of_the_encoded_delta() {
    let mut scrubber = fixed_scrubber();
    let mut target_map = MockRocksDBMap::new();
    let base: Vec<u8> = (0..8192).map(|i| (i % 251) as u8).collect();
    let mut similar = base.clone();
    for item in similar[100..140].iter_mut() {
        *item = item.wrapping_add(3);
    }
    let hash_base = hash_data(&base);
    let mut hash_similar = hash_data(&similar);
    hash_similar[31] ^= 1;

    let plan = scrubber.plan_chunk(&hash_base, &Chunk::new(base.clone())).unwrap();
    scrubber.complete_chunk(hash_base, &base, plan, None, &mut target_map).unwrap();
    let plan = scrubber.plan_chunk(&hash_similar, &Chunk::new(similar.clone())).unwrap();
    scrubber.complete_chunk(hash_similar, &similar, plan, Some(base.clone()), &mut target_map).unwrap();

    let stored = target_map.get(&hash_similar).unwrap();
    assert_eq!(&stored[..4], &[0x28, 0xB5, 0x2F, 0xFD]);
    let expected = zstd::encode_all(XorEncoder.encode(&similar, &base).as_slice(), 0).unwrap();
    assert_eq!(stored, expected);
}

#[test]
fn store_chunk_keeps_the_chunk_when_the_delta_does_not_pay_off() {
    let mut scrubber = fixed_scrubber();
    let mut target_map = MockRocksDBMap::new();
    let base = vec![5u8; 512];
    let hash_base = hash_data(&base);
    scrubber.store_chunk(hash_base, &base, three_tier_sfs(7), None, None, &mut target_map).unwrap();

    // A delta of noise compresses far worse than a run of zeros.
    let chunk = vec![0u8; 512];
    let mut state: u32 = 12345;
    let noise: Vec<u8> = (0..4096)
        .map(|_| {
            state = state.wrapping_mul(1_103_515_245).wrapping_add(12_345);
            (state >> 16) as u8
        })
        .collect();
    let hash = [3u8; 32];
    let n = scrubber.store_chunk(hash, &chunk, three_tier_sfs(7), Some(hash_base), Some(noise), &mut target_map).unwrap();
    assert_eq!(n, chunk.len());
    assert_eq!(target_map.get(&hash), Some(chunk));
    assert_eq!(scrubber.delta_stored(), 0);
    assert_eq!(scrubber.processed_count(), 2);
}

#[test]
fn store_chunk_refuses_an_unknown_base() {
    let mut scrubber = fixed_scrubber();
    let mut target_map = MockRocksDBMap::new();
    let data = vec![1u8; 64];
    let r = scrubber.store_chunk([4u8; 32], &data, three_tier_sfs(7), Some([8u8; 32]), Some(vec![0u8; 8]), &mut target_map);
    assert!(r.is_err());
    assert_eq!(target_map.len(), 0);
    assert_eq!(scrubber.processed_count(), 0);
}

#[test]
fn plan_from_features_cases() {
    let mut scrubber = fixed_scrubber();
    let mut target_map = MockRocksDBMap::new();
    let hash = [1u8; 32];
    assert!(scrubber.plan_from_features(&hash, three_tier_sfs(7)[..12].to_vec()).is_err());
    let plan = scrubber.plan_from_features(&hash, three_tier_sfs(7)).unwrap();
    assert!(matches!(plan, ChunkPlan::Raw { .. }));
    scrubber.complete_chunk(hash, &[9u8; 16], plan, None, &mut target_map).unwrap();
    assert!(matches!(scrubber.plan_from_features(&hash, Vec::new()).unwrap(), ChunkPlan::Known));
    match scrubber.plan_from_features(&[2u8; 32], three_tier_sfs(7)).unwrap() {
        ChunkPlan::Delta { base, chain, root, super_features } => {
            assert_eq!(base, hash);
            assert!(chain.is_empty());
            assert_eq!(root, hash);
            assert_eq!(super_features, three_tier_sfs(7));
        }
        _ => panic!("expected a delta plan"),
    }
}

#[test]
fn generated_values_hash_the_sorted_groups() {
    let sf_gen = PalantirHasher::new(3, vec![4, 3, 2]);
    let data: Vec<u8> = (0..4096u32).map(|i| (i * 17 % 253) as u8).collect();
    let gear = gear_table();
    let out = sf_gen.generate(&Chunk::new(data.clone()), &gear);
    assert_eq!(out, sf_gen.generate(&Chunk::new(data.clone()), &gear));
    let raw = sf_gen.raw_features(&data, &gear);
    let mut k = 0;
    for size in [4usize, 3, 2] {
        for start in (0..12 / size).map(|g| g * size) {
            let mut group = raw[start..start + size].to_vec();
            group.sort();
            let mut h = DefaultHasher::new();
            for v in &group {
                h.write(&v.to_ne_bytes());
            }
            assert_eq!(out[k].value(), h.finish() as u32);
            k += 1;
        }
    }
    assert_eq!(k, out.len());
}
