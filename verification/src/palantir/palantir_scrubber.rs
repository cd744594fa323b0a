//! The decisions of the Palantir scrubbing pipeline.
//!
//! For every chunk the scrubber generates super-features, looks for an exact
//! duplicate and then for a similar stored block, and stores the chunk either
//! as a compressed delta against that block or as it is. Rebuilding the base
//! block from its chain of stored deltas is left to the caller, who reads the
//! target map and decodes; the scrubber plans the work for one chunk with
//! [`PalantirScrubber::plan_chunk`] and records its outcome with
//! [`PalantirScrubber::complete_chunk`].

use vstd::prelude::*;
use std::collections::HashMap;
use crate::heuristic_index::SearchConfig;
use crate::index::error::IndexError;
use crate::palantir::encoder::PalantirEncoder;
use crate::palantir::error::PalantirError;
use crate::palantir::lifecycle_manager::LifecycleTierConfig;
use crate::heuristic_index::probed_features;
use crate::index::search::lemma_overlap_witness;
use crate::index::store::{keys_for, with_entry};
use crate::palantir::metadata_manager::{
    added_outcome, features_num_of, lemma_lookup_same_postings, lookup_outcome, tier_slice, AnySFTable,
    MetadataManager,
};
use crate::palantir::tables::sf_table::sf_values;
use crate::palantir::mock_rocksdb::{copy_bytes, upsert, MockRocksDBMap};
use crate::palantir::types::{BlockID, Chunk, SuperFeature, SuperFeatureGenerator, TierConfig};
use crate::palantir::utils::{lcm_steps_defined, spec_lcm_vec};
use crate::sketch::IndexKey;

verus! {

broadcast use vstd::std_specs::hash::group_hash_axioms;

/// Whether `chain` and `root` are what following `bases` from `start`
/// gives: `chain` lists `start` and every block reached from it that has a
/// base of its own, in order, and `root` is the first block without one.
pub open spec fn is_delta_chain<H>(bases: Map<H, H>, start: H, chain: Seq<H>, root: H) -> bool {
    &&& !bases.contains_key(root)
    &&& if chain.len() == 0 {
        root == start
    } else {
        &&& chain[0] == start
        &&& forall|i: int| 0 <= i < chain.len() ==> bases.contains_key(#[trigger] chain[i])
        &&& forall|i: int| 0 <= i < chain.len() - 1 ==> bases[#[trigger] chain[i]] == chain[i + 1]
        &&& bases[chain.last()] == root
    }
}

/// Whether a delta of compressed length `delta_len` is worth storing in
/// place of the chunk of compressed length `raw_len`: the ratio of the two
/// is below `num / den`.
pub open spec fn pays_off(delta_len: nat, raw_len: nat, num: nat, den: nat) -> bool {
    delta_len * den < num * raw_len
}

/// Returns whether the compression ratio `delta_len / raw_len` is below the
/// threshold `num / den`.
pub fn delta_pays_off(delta_len: usize, raw_len: usize, num: u64, den: u64) -> (r: bool)
    ensures
        r == pays_off(delta_len as nat, raw_len as nat, num as nat, den as nat),
{
    proof {
        assert((delta_len as int) * (den as int) <= 0xffff_ffff_ffff_ffffint * 0xffff_ffff_ffff_ffffint)
            by (nonlinear_arith)
            requires
                delta_len <= 0xffff_ffff_ffff_ffffint,
                den <= 0xffff_ffff_ffff_ffffint,
        ;
        assert((num as int) * (raw_len as int) <= 0xffff_ffff_ffff_ffffint * 0xffff_ffff_ffff_ffffint)
            by (nonlinear_arith)
            requires
                raw_len <= 0xffff_ffff_ffff_ffffint,
                num <= 0xffff_ffff_ffff_ffffint,
        ;
    }
    (delta_len as u128) * (den as u128) < (num as u128) * (raw_len as u128)
}

/// What `zstd::encode_all` gives for `data` at the default level: the
/// compressed frame, or `None` where the encoder reports an error.
pub uninterp spec fn zstd_encoded(data: Seq<u8>) -> Option<Seq<u8>>;

/// Compresses `data` into a zstd frame at the default level, with
/// `zstd::encode_all`; `None` when the encoder reports an error. The result
/// is claimed to be the one that zstd gives for these bytes, whatever the
/// call; nothing more is stated of the compressed bytes.
#[verifier::external_body]
fn zstd_compress(data: &[u8]) -> (r: Option<Vec<u8>>)
    ensures
        r is Some <==> zstd_encoded(data@) is Some,
        r matches Some(v) ==> v@ == zstd_encoded(data@)->Some_0,
{
    zstd::encode_all(data, 0).ok()
}

/// The work planned for one chunk.
pub enum ChunkPlan<H> {
    /// A block with the chunk's fingerprint is already stored.
    Known,
    /// No similar block is stored: the chunk is stored as it is.
    Raw {
        /// The super-features of the chunk.
        super_features: Vec<SuperFeature>,
    },
    /// The block `base` is similar: the chunk is to be encoded against it.
    /// The base is rebuilt from the stored data of `root` by applying the
    /// stored deltas of `chain` from last to first.
    Delta {
        /// The super-features of the chunk.
        super_features: Vec<SuperFeature>,
        /// The fingerprint of the similar block.
        base: H,
        /// The blocks from `base` on that are stored as deltas.
        chain: Vec<H>,
        /// The first block of the chain that is stored in full.
        root: H,
    },
}

/// The scrubbing pipeline of the Palantir method over `N` tiers.
#[verifier::reject_recursive_types(H)]
pub struct PalantirScrubber<S, H: IndexKey, E, const N: usize> {
    sf_gen: S,
    metadata_manager: MetadataManager<H, N>,
    encoder: E,
    fp_threshold: (u64, u64),
    chunks_processed: u64,
    delta_stored: u64,
    delta_bases: HashMap<H, H>,
    ranks: Ghost<Map<H, nat>>,
    next_rank: Ghost<nat>,
}

impl<S, H: IndexKey, E, const N: usize> PalantirScrubber<S, H, E, N> {
    /// The super-feature generator the scrubber was made with.
    pub closed spec fn generator(&self) -> S {
        self.sf_gen
    }

    /// The delta encoder the scrubber was made with.
    pub closed spec fn delta_encoder(&self) -> E {
        self.encoder
    }

    /// The metadata of the stored blocks.
    pub closed spec fn metadata(&self) -> MetadataManager<H, N> {
        self.metadata_manager
    }

    /// The base of every block stored as a delta.
    pub closed spec fn bases(&self) -> Map<H, H> {
        self.delta_bases@
    }

    /// The number of chunks seen.
    pub closed spec fn processed(&self) -> nat {
        self.chunks_processed as nat
    }

    /// The number of chunks stored as deltas.
    pub closed spec fn deltas(&self) -> nat {
        self.delta_stored as nat
    }

    /// The ratio below which a delta is stored, as a fraction.
    pub closed spec fn threshold(&self) -> (u64, u64) {
        self.fp_threshold
    }

    /// The metadata is well formed, every base was stored before the block
    /// that refers to it (so that chains of bases end), and every posted
    /// block has its fingerprint recorded.
    pub closed spec fn wf(&self) -> bool {
        &&& self.metadata_manager.wf()
        &&& vstd::std_specs::hash::obeys_key_model::<H>()
        &&& self.delta_stored <= self.chunks_processed
        &&& self.ranks@.dom() == self.metadata_manager.fingerprints().dom()
        &&& forall|k: H| #[trigger] self.ranks@.contains_key(k) ==> self.ranks@[k] < self.next_rank@
        &&& forall|k: H| #[trigger] self.delta_bases@.contains_key(k) ==> {
            &&& self.ranks@.contains_key(k)
            &&& self.ranks@.contains_key(self.delta_bases@[k])
            &&& self.ranks@[self.delta_bases@[k]] < self.ranks@[k]
        }
        &&& forall|j: int, f: u32, b: BlockID<H>|
            0 <= j < N && self.metadata_manager.tiers()[j].postings().contains_key(f)
                && #[trigger] self.metadata_manager.tiers()[j].postings()[f].contains(b)
                ==> self.metadata_manager.fingerprints().contains_key(b.hash)
    }

    /// Creates a scrubber with empty metadata; a delta is stored when its
    /// compressed size is below nine tenths of the compressed chunk.
    pub fn new(
        sf_gen: S,
        encoder: E,
        tier_config: TierConfig<N>,
        lifecycle_configs: [LifecycleTierConfig; N],
        search_config: SearchConfig,
    ) -> (r: Self)
        requires
            vstd::std_specs::hash::obeys_key_model::<H>(),
            vstd::std_specs::hash::obeys_key_model::<BlockID<H>>(),
            N <= 256,
            tier_config.features_num is None ==> lcm_steps_defined(tier_config.tier_list@)
                && spec_lcm_vec(tier_config.tier_list@) is Some,
            forall|i: int| 0 <= i < N ==> #[trigger] tier_config.tier_list@[i] > 0 && 1 <= features_num_of(
                tier_config,
            ) / (tier_config.tier_list@[i] as nat) <= 12,
        ensures
            r.wf(),
            r.generator() == sf_gen,
            r.delta_encoder() == encoder,
            r.metadata().fingerprints() == Map::<H, BlockID<H>>::empty(),
            r.metadata().lifecycle() == lifecycle_configs@,
            forall|i: int| 0 <= i < N ==> #[trigger] r.metadata().counts()[i] == features_num_of(tier_config) / (
                tier_config.tier_list@[i] as nat),
            forall|i: int| 0 <= i < N ==> {
                let t = #[trigger] r.metadata().tiers()[i];
                &&& t.postings() == Map::<u32, Set<BlockID<H>>>::empty()
                &&& t.metrics() == Map::<BlockID<H>, crate::index::metrics::Metric>::empty()
                &&& t.config() == search_config
            },
            r.bases() == Map::<H, H>::empty(),
            r.processed() == 0,
            r.deltas() == 0,
            r.threshold() == (9u64, 10u64),
    {
        let metadata_manager = MetadataManager::new(tier_config, lifecycle_configs, &search_config);
        PalantirScrubber {
            sf_gen,
            metadata_manager,
            encoder,
            fp_threshold: (9, 10),
            chunks_processed: 0,
            delta_stored: 0,
            delta_bases: HashMap::new(),
            ranks: Ghost(Map::empty()),
            next_rank: Ghost(0),
        }
    }

    /// The number of chunks stored as deltas.
    pub fn delta_stored(&self) -> (r: u64)
        ensures
            r == self.deltas(),
    {
        self.delta_stored
    }

    /// The number of chunks seen.
    pub fn processed_count(&self) -> (r: u64)
        ensures
            r == self.processed(),
    {
        self.chunks_processed
    }

    /// The number of recorded fingerprints.
    pub fn fp_table_size(&self) -> (r: usize)
        ensures
            r == self.metadata().fingerprints().len(),
    {
        self.metadata_manager.fp_table_size()
    }

    /// The number of super-feature values with postings, over all tiers.
    pub fn sf_table_size(&self) -> (r: usize)
        requires
            self.wf(),
            crate::palantir::metadata_manager::postings_total(self.metadata().tiers(), N as int) <= usize::MAX,
        ensures
            r == crate::palantir::metadata_manager::postings_total(self.metadata().tiers(), N as int),
    {
        self.metadata_manager.sf_table_size()
    }

    /// The base of every block stored as a delta.
    pub fn delta_bases(&self) -> (r: &HashMap<H, H>)
        ensures
            r@ == self.bases(),
    {
        &self.delta_bases
    }

    /// Ends a backup version: every tier ages its metrics and drops the
    /// entries its lifecycle rejects.
    pub fn update(&mut self) -> (r: Result<(), IndexError>)
        requires
            old(self).wf(),
        ensures
            r is Ok,
            final(self).wf(),
            final(self).generator() == old(self).generator(),
            final(self).delta_encoder() == old(self).delta_encoder(),
            final(self).metadata().fingerprints() == old(self).metadata().fingerprints(),
            final(self).metadata().counts() == old(self).metadata().counts(),
            final(self).metadata().lifecycle() == old(self).metadata().lifecycle(),
            crate::palantir::metadata_manager::aged_outcome(
                old(self).metadata().tiers(),
                final(self).metadata().tiers(),
                old(self).metadata().lifecycle(),
                N as int,
            ),
            final(self).bases() == old(self).bases(),
            final(self).processed() == old(self).processed(),
            final(self).deltas() == old(self).deltas(),
    {
        self.metadata_manager.finish_version()
    }

    /// Well-formedness carries over to a state with the same fingerprints,
    /// bases, counters and postings.
    proof fn lemma_wf_transfer(a: &Self, b: &Self)
        requires
            a.wf(),
            b.metadata_manager.wf(),
            b.metadata_manager.fingerprints() == a.metadata_manager.fingerprints(),
            b.delta_bases@ == a.delta_bases@,
            b.ranks == a.ranks,
            b.next_rank == a.next_rank,
            b.delta_stored == a.delta_stored,
            b.chunks_processed == a.chunks_processed,
            forall|j: int| 0 <= j < N ==> (#[trigger] b.metadata_manager.tiers()[j]).postings()
                == a.metadata_manager.tiers()[j].postings(),
        ensures
            b.wf(),
    {
        assert forall|j: int, f: u32, k: BlockID<H>|
            0 <= j < N && b.metadata_manager.tiers()[j].postings().contains_key(f)
                && #[trigger] b.metadata_manager.tiers()[j].postings()[f].contains(k)
                implies b.metadata_manager.fingerprints().contains_key(k.hash) by {
            assert(a.metadata_manager.tiers()[j].postings()[f].contains(k));
        }
    }

    /// A block that a lookup finds is a stored block.
    proof fn lemma_found_is_fingerprinted(
        &self,
        before: Seq<AnySFTable<H>>,
        sfs: Seq<SuperFeature>,
        blk: BlockID<H>,
        t: u8,
    )
        requires
            self.wf(),
            lookup_outcome(
                before,
                self.metadata_manager.tiers(),
                self.metadata_manager.counts(),
                self.metadata_manager.lifecycle(),
                N as int,
                sfs,
                Some((blk, t)),
            ),
            forall|j: int| 0 <= j < N ==> (#[trigger] before[j]).postings()
                == self.metadata_manager.tiers()[j].postings(),
        ensures
            self.metadata_manager.fingerprints().contains_key(blk.hash),
    {
        let i = t as int;
        let tier = before[i];
        let p = tier.postings();
        let q = sf_values(tier_slice(sfs, self.metadata_manager.counts(), i));
        let sel = probed_features(p, q, tier.config().max_df);
        lemma_overlap_witness(p, sel, blk);
        let k = choose|k: int| 0 <= k < sel.len() && #[trigger] keys_for(p, sel[k]).contains(blk);
        assert(self.metadata_manager.tiers()[i].postings()[sel[k]].contains(blk));
    }

    /// Records a block that is not stored yet, under its own fingerprint,
    /// and ranks it after every stored block.
    fn add_new_block(&mut self, hash: H, super_features: &[SuperFeature])
        requires
            old(self).wf(),
            !old(self).metadata_manager.fingerprints().contains_key(hash),
            old(self).metadata_manager.total_features() <= super_features@.len(),
        ensures
            final(self).wf(),
            final(self).generator() == old(self).generator(),
            final(self).delta_encoder() == old(self).delta_encoder(),
            final(self).metadata_manager.fingerprints() == old(self).metadata_manager.fingerprints().insert(
                hash,
                BlockID { hash },
            ),
            final(self).metadata_manager.counts() == old(self).metadata_manager.counts(),
            final(self).metadata_manager.lifecycle() == old(self).metadata_manager.lifecycle(),
            added_outcome(
                old(self).metadata_manager.tiers(),
                final(self).metadata_manager.tiers(),
                old(self).metadata_manager.counts(),
                old(self).metadata_manager.lifecycle(),
                N as int,
                super_features@,
                BlockID { hash },
            ),
            final(self).delta_bases@ == old(self).delta_bases@,
            final(self).chunks_processed == old(self).chunks_processed,
            final(self).delta_stored == old(self).delta_stored,
            final(self).fp_threshold == old(self).fp_threshold,
            final(self).ranks@ == old(self).ranks@.insert(hash, old(self).next_rank@),
            final(self).next_rank@ == old(self).next_rank@ + 1,
    {
        let ghost s0 = *self;
        self.metadata_manager.add_block(hash, super_features, BlockID::new(hash));
        self.ranks = Ghost(self.ranks@.insert(hash, self.next_rank@));
        self.next_rank = Ghost(self.next_rank@ + 1);
        proof {
            let blk = BlockID { hash };
            assert(self.ranks@.dom() =~= self.metadata_manager.fingerprints().dom());
            assert forall|j: int, f: u32, k: BlockID<H>|
                0 <= j < N && self.metadata_manager.tiers()[j].postings().contains_key(f)
                    && #[trigger] self.metadata_manager.tiers()[j].postings()[f].contains(k)
                    implies self.metadata_manager.fingerprints().contains_key(k.hash) by {
                let before = s0.metadata_manager.tiers()[j];
                assert(self.metadata_manager.tiers()[j].postings() == with_entry(
                    before.postings(),
                    blk,
                    sf_values(tier_slice(super_features@, s0.metadata_manager.counts(), j)),
                ));
                if k != blk {
                    assert(before.postings().contains_key(f) && before.postings()[f].contains(k));
                }
            }
        }
    }

    /// The blocks to walk from `hash` to rebuild it: the chain of blocks
    /// stored as deltas, and the first block stored in full.
    pub fn delta_chain(&self, hash: &H) -> (r: (Vec<H>, H))
        requires
            self.wf(),
        ensures
            is_delta_chain(self.bases(), *hash, r.0@, r.1),
    {
        let mut chain: Vec<H> = Vec::new();
        let mut cur: H = *hash;
        loop
            invariant
                self.wf(),
                chain@.len() == 0 ==> cur == *hash,
                chain@.len() > 0 ==> chain@[0] == *hash,
                forall|i: int| 0 <= i < chain@.len() ==> self.delta_bases@.contains_key(#[trigger] chain@[i]),
                forall|i: int| 0 <= i < chain@.len() - 1 ==> self.delta_bases@[#[trigger] chain@[i]] == chain@[i + 1],
                chain@.len() > 0 ==> self.delta_bases@[chain@.last()] == cur,
            ensures
                is_delta_chain(self.delta_bases@, *hash, chain@, cur),
            decreases if self.ranks@.contains_key(cur) { self.ranks@[cur] + 1 } else { 0 },
        {
            match self.delta_bases.get(&cur) {
                Some(base) => {
                    let next = *base;
                    let ghost before = chain@;
                    chain.push(cur);
                    proof {
                        assert(self.delta_bases@.contains_key(cur));
                        assert forall|i: int| 0 <= i < chain@.len() - 1 implies self.delta_bases@[#[trigger] chain@[i]]
                            == chain@[i + 1] by {
                            if i == before.len() - 1 {
                                assert(chain@[i + 1] == cur);
                            }
                        }
                    }
                    cur = next;
                },
                None => {
                    break;
                },
            }
        }
        (chain, cur)
    }
}

impl<S, E, const N: usize> PalantirScrubber<S, [u8; 32], E, N> {
    /// Plans the work for a chunk with fingerprint `hash` whose super-features
    /// are `super_features`: nothing when the fingerprint is known; otherwise
    /// the super-features are looked up tier by tier, and a similar block
    /// found is planned as the base of a delta, with the chain that rebuilds
    /// it.
    ///
    /// Fails, changing nothing, when the fingerprint is unknown and there are
    /// fewer super-features than the tiers take.
    pub fn plan_from_features(&mut self, hash: &[u8; 32], super_features: Vec<SuperFeature>) -> (r: Result<
        ChunkPlan<[u8; 32]>,
        PalantirError,
    >)
        requires
            old(self).wf(),
        ensures
            final(self).wf(),
            final(self).generator() == old(self).generator(),
            final(self).delta_encoder() == old(self).delta_encoder(),
            final(self).metadata().fingerprints() == old(self).metadata().fingerprints(),
            final(self).metadata().counts() == old(self).metadata().counts(),
            final(self).metadata().lifecycle() == old(self).metadata().lifecycle(),
            final(self).bases() == old(self).bases(),
            final(self).processed() == old(self).processed(),
            final(self).deltas() == old(self).deltas(),
            old(self).metadata().fingerprints().contains_key(*hash) ==> (r matches Ok(ChunkPlan::Known)
                && final(self).metadata().tiers() == old(self).metadata().tiers()),
            !old(self).metadata().fingerprints().contains_key(*hash) ==> {
                &&& r is Err <==> super_features@.len() < old(self).metadata().total_features()
                &&& r is Err ==> final(self).metadata().tiers() == old(self).metadata().tiers()
                &&& !(r matches Ok(ChunkPlan::Known))
            },
            r matches Ok(ChunkPlan::Raw { super_features: s }) ==> {
                &&& s@ == super_features@
                &&& old(self).metadata().total_features() <= super_features@.len()
                &&& crate::palantir::metadata_manager::lookup_outcome(
                    old(self).metadata().tiers(),
                    final(self).metadata().tiers(),
                    old(self).metadata().counts(),
                    old(self).metadata().lifecycle(),
                    N as int,
                    super_features@,
                    None,
                )
            },
            r matches Ok(ChunkPlan::Delta { super_features: s, base, chain, root }) ==> {
                &&& s@ == super_features@
                &&& old(self).metadata().total_features() <= super_features@.len()
                &&& exists|t: u8| crate::palantir::metadata_manager::lookup_outcome(
                    old(self).metadata().tiers(),
                    final(self).metadata().tiers(),
                    old(self).metadata().counts(),
                    old(self).metadata().lifecycle(),
                    N as int,
                    super_features@,
                    Some((BlockID { hash: base }, t)),
                )
                &&& old(self).metadata().fingerprints().contains_key(base)
                &&& is_delta_chain(old(self).bases(), base, chain@, root)
            },
    {
        if self.metadata_manager.lookup_fingerprint(hash).is_some() {
            return Ok(ChunkPlan::Known);
        }
        let total = self.metadata_manager.feature_count();
        if super_features.len() < total {
            return Err(PalantirError::HashError("too few super-features for the tiers".to_owned()));
        }
        let ghost s0 = *self;
        let found = self.metadata_manager.lookup_super_features(super_features.as_slice());
        proof {
            lemma_lookup_same_postings(
                s0.metadata_manager.tiers(),
                self.metadata_manager.tiers(),
                s0.metadata_manager.counts(),
                s0.metadata_manager.lifecycle(),
                N as int,
                super_features@,
                found,
            );
            Self::lemma_wf_transfer(&s0, self);
        }
        match found {
            Some((block, t)) => {
                proof {
                    self.lemma_found_is_fingerprinted(s0.metadata_manager.tiers(), super_features@, block, t);
                }
                let (chain, root) = self.delta_chain(&block.hash);
                Ok(ChunkPlan::Delta { super_features, base: block.hash, chain, root })
            },
            None => Ok(ChunkPlan::Raw { super_features }),
        }
    }
}

impl<S: SuperFeatureGenerator, E: PalantirEncoder, const N: usize> PalantirScrubber<S, [u8; 32], E, N> {
    /// Plans the work for a chunk with fingerprint `hash`: nothing when the
    /// fingerprint is known; otherwise the chunk, as it is, is handed to the
    /// super-feature generator, and the super-features it gives for the
    /// chunk's bytes are planned with [`PalantirScrubber::plan_from_features`].
    ///
    /// Fails, exactly when the fingerprint is unknown, when the generator
    /// gives fewer super-features than the tiers take.
    pub fn plan_chunk(&mut self, hash: &[u8; 32], chunk: &Chunk) -> (r: Result<ChunkPlan<[u8; 32]>, PalantirError>)
        requires
            old(self).wf(),
        ensures
            final(self).wf(),
            final(self).generator() == old(self).generator(),
            final(self).delta_encoder() == old(self).delta_encoder(),
            final(self).metadata().fingerprints() == old(self).metadata().fingerprints(),
            final(self).metadata().counts() == old(self).metadata().counts(),
            final(self).metadata().lifecycle() == old(self).metadata().lifecycle(),
            final(self).bases() == old(self).bases(),
            final(self).processed() == old(self).processed(),
            final(self).deltas() == old(self).deltas(),
            old(self).metadata().fingerprints().contains_key(*hash) ==> (r matches Ok(ChunkPlan::Known)
                && final(self).metadata().tiers() == old(self).metadata().tiers()),
            r matches Ok(ChunkPlan::Known) ==> old(self).metadata().fingerprints().contains_key(*hash),
            r is Err ==> final(self).metadata().tiers() == old(self).metadata().tiers()
                && !old(self).metadata().fingerprints().contains_key(*hash),
            !old(self).metadata().fingerprints().contains_key(*hash) ==> {
                &&& r is Err <==> old(self).generator().spec_generate(chunk.bytes()).len()
                    < old(self).metadata().total_features()
                &&& r matches Ok(ChunkPlan::Raw { super_features }) ==> super_features@
                    == old(self).generator().spec_generate(chunk.bytes())
                &&& r matches Ok(ChunkPlan::Delta { super_features, .. }) ==> super_features@
                    == old(self).generator().spec_generate(chunk.bytes())
            },
            r matches Ok(ChunkPlan::Raw { super_features }) ==> {
                &&& old(self).metadata().total_features() <= super_features@.len()
                &&& crate::palantir::metadata_manager::lookup_outcome(
                    old(self).metadata().tiers(),
                    final(self).metadata().tiers(),
                    old(self).metadata().counts(),
                    old(self).metadata().lifecycle(),
                    N as int,
                    super_features@,
                    None,
                )
            },
            r matches Ok(ChunkPlan::Delta { super_features, base, chain, root }) ==> {
                &&& old(self).metadata().total_features() <= super_features@.len()
                &&& exists|t: u8| crate::palantir::metadata_manager::lookup_outcome(
                    old(self).metadata().tiers(),
                    final(self).metadata().tiers(),
                    old(self).metadata().counts(),
                    old(self).metadata().lifecycle(),
                    N as int,
                    super_features@,
                    Some((BlockID { hash: base }, t)),
                )
                &&& old(self).metadata().fingerprints().contains_key(base)
                &&& is_delta_chain(old(self).bases(), base, chain@, root)
            },
    {
        if self.metadata_manager.lookup_fingerprint(hash).is_some() {
            return Ok(ChunkPlan::Known);
        }
        let super_features = self.sf_gen.generate(chunk);
        self.plan_from_features(hash, super_features)
    }

    /// Records the outcome of the work planned for the chunk with
    /// fingerprint `hash` and bytes `chunk_data`, and counts the chunk.
    ///
    /// A known chunk changes nothing. Otherwise, when `base_data` holds the
    /// rebuilt base of a planned delta, the encoder gives the delta of the
    /// chunk against it, and the chunk is stored with
    /// [`PalantirScrubber::store_chunk`] with that delta; the chunk is
    /// stored as it is in every other case. Returns the number of bytes processed: the chunk's
    /// length, or zero for a known chunk.
    ///
    /// Fails, changing nothing, when the plan does not fit the metadata (the
    /// fingerprint is known, the super-features are too few, or the base is
    /// not stored) or when compression fails.
    pub fn complete_chunk(
        &mut self,
        hash: [u8; 32],
        chunk_data: &[u8],
        plan: ChunkPlan<[u8; 32]>,
        base_data: Option<Vec<u8>>,
        target_map: &mut MockRocksDBMap,
    ) -> (r: Result<usize, PalantirError>)
        requires
            old(self).wf(),
            old(self).processed() < u64::MAX,
            old(target_map).wf(),
            old(target_map).inserts() < usize::MAX,
        ensures
            final(self).wf(),
            final(self).generator() == old(self).generator(),
            final(self).delta_encoder() == old(self).delta_encoder(),
            final(target_map).wf(),
            final(self).metadata().counts() == old(self).metadata().counts(),
            final(self).metadata().lifecycle() == old(self).metadata().lifecycle(),
            final(self).threshold() == old(self).threshold(),
            r is Err ==> unchanged(*old(self), *final(self), *old(target_map), *final(target_map)),
            r is Ok ==> final(self).processed() == old(self).processed() + 1,
            plan is Known ==> {
                &&& r == Ok::<usize, PalantirError>(0)
                &&& final(self).metadata().fingerprints() == old(self).metadata().fingerprints()
                &&& final(self).metadata().tiers() == old(self).metadata().tiers()
                &&& final(self).bases() == old(self).bases()
                &&& final(self).deltas() == old(self).deltas()
                &&& final(target_map).pairs() == old(target_map).pairs()
            },
            plan matches ChunkPlan::Raw { super_features } ==> store_outcome(
                *old(self),
                *final(self),
                *old(target_map),
                *final(target_map),
                hash,
                chunk_data@,
                super_features@,
                None,
                None,
                r,
            ),
            plan matches ChunkPlan::Delta { super_features, base, chain, root } ==> {
                &&& base_data is None ==> store_outcome(
                    *old(self),
                    *final(self),
                    *old(target_map),
                    *final(target_map),
                    hash,
                    chunk_data@,
                    super_features@,
                    Some(base),
                    None,
                    r,
                )
                &&& base_data matches Some(b) ==> store_outcome(
                    *old(self),
                    *final(self),
                    *old(target_map),
                    *final(target_map),
                    hash,
                    chunk_data@,
                    super_features@,
                    Some(base),
                    Some(old(self).delta_encoder().spec_encode(chunk_data@, b@)),
                    r,
                )
            },
    {
        match plan {
            ChunkPlan::Known => {
                self.chunks_processed = self.chunks_processed + 1;
                Ok(0)
            },
            ChunkPlan::Raw { super_features } => self.store_chunk(hash, chunk_data, super_features, None, None, target_map),
            ChunkPlan::Delta { super_features, base, chain: _, root: _ } => {
                let delta = match base_data {
                    Some(base_bytes) => Some(self.encoder.encode(chunk_data, base_bytes.as_slice())),
                    None => None,
                };
                let r = self.store_chunk(hash, chunk_data, super_features, Some(base), delta, target_map);
                r
            },
        }
    }
}

impl<S, E, const N: usize> PalantirScrubber<S, [u8; 32], E, N> {
    /// Stores the chunk with fingerprint `hash`, bytes `chunk_data` and
    /// super-features `super_features`, and counts it.
    ///
    /// With `base` the block planned as the chunk's base and `delta` the
    /// delta of the chunk against that block's rebuilt bytes, the delta and
    /// the chunk are both compressed, and the compressed delta is stored
    /// under the chunk's fingerprint when its size is below the threshold
    /// ratio of the compressed chunk. The chunk is stored as it is in every
    /// other case. The block is then recorded in every table. Returns the
    /// chunk's length.
    ///
    /// Fails, changing nothing, when the fingerprint is known, the
    /// super-features are too few, the base is not stored, or compression
    /// fails.
    pub fn store_chunk(
        &mut self,
        hash: [u8; 32],
        chunk_data: &[u8],
        super_features: Vec<SuperFeature>,
        base: Option<[u8; 32]>,
        delta: Option<Vec<u8>>,
        target_map: &mut MockRocksDBMap,
    ) -> (r: Result<usize, PalantirError>)
        requires
            old(self).wf(),
            old(self).processed() < u64::MAX,
            old(target_map).wf(),
            old(target_map).inserts() < usize::MAX,
        ensures
            final(self).wf(),
            final(self).generator() == old(self).generator(),
            final(self).delta_encoder() == old(self).delta_encoder(),
            final(target_map).wf(),
            final(self).metadata().counts() == old(self).metadata().counts(),
            final(self).metadata().lifecycle() == old(self).metadata().lifecycle(),
            final(self).threshold() == old(self).threshold(),
            store_outcome(
                *old(self),
                *final(self),
                *old(target_map),
                *final(target_map),
                hash,
                chunk_data@,
                super_features@,
                base,
                bytes_of(delta),
                r,
            ),
    {
        if self.metadata_manager.lookup_fingerprint(&hash).is_some() {
            return Err(PalantirError::MetadataError("the chunk is already stored".to_owned()));
        }
        let total = self.metadata_manager.feature_count();
        if super_features.len() < total {
            return Err(PalantirError::MetadataError("too few super-features for the tiers".to_owned()));
        }
        let mut stored: Option<([u8; 32], Vec<u8>)> = None;
        match base {
            Some(b) => {
                if self.metadata_manager.lookup_fingerprint(&b).is_none() {
                    return Err(PalantirError::MetadataError("the base block is not stored".to_owned()));
                }
                match delta {
                    Some(encoded) => {
                        let delta_compressed = match zstd_compress(encoded.as_slice()) {
                            Some(v) => v,
                            None => {
                                return Err(PalantirError::ChunkError("delta compression failed".to_owned()));
                            },
                        };
                        let simple_compressed = match zstd_compress(chunk_data) {
                            Some(v) => v,
                            None => {
                                return Err(PalantirError::ChunkError("chunk compression failed".to_owned()));
                            },
                        };
                        let (num, den) = self.fp_threshold;
                        if delta_pays_off(delta_compressed.len(), simple_compressed.len(), num, den) {
                            stored = Some((b, delta_compressed));
                        }
                    },
                    None => {},
                }
            },
            None => {},
        }
        let ghost s0 = *self;
        match stored {
            Some((b, bytes)) => {
                target_map.insert(copy_bytes(&hash), bytes);
                self.add_new_block(hash, super_features.as_slice());
                self.delta_bases.insert(hash, b);
                self.delta_stored = self.delta_stored + 1;
                proof {
                    assert(self.delta_bases@ == s0.delta_bases@.insert(hash, b));
                    assert forall|k: [u8; 32]| #[trigger] self.delta_bases@.contains_key(k) implies {
                        &&& self.ranks@.contains_key(k)
                        &&& self.ranks@.contains_key(self.delta_bases@[k])
                        &&& self.ranks@[self.delta_bases@[k]] < self.ranks@[k]
                    } by {
                        if k != hash {
                            assert(s0.delta_bases@.contains_key(k));
                            assert(k != hash);
                        }
                    }
                }
            },
            None => {
                target_map.insert(copy_bytes(&hash), copy_bytes(chunk_data));
                self.add_new_block(hash, super_features.as_slice());
            },
        }
        self.chunks_processed = self.chunks_processed + 1;
        Ok(chunk_data.len())
    }
}

/// The bytes an optional buffer holds.
pub open spec fn bytes_of(o: Option<Vec<u8>>) -> Option<Seq<u8>> {
    match o {
        Some(v) => Some(v@),
        None => None,
    }
}

/// The outcome of storing the chunk with fingerprint `hash`, bytes `data`
/// and super-features `sfs`, planned against `base` with the encoded
/// `delta`: refused or failed compression changes nothing; otherwise the
/// chunk is recorded and counted, and stored by [`delta_outcome`] when a
/// base and a delta are given, as it is when not.
pub open spec fn store_outcome<S, E, const N: usize>(
    before: PalantirScrubber<S, [u8; 32], E, N>,
    after: PalantirScrubber<S, [u8; 32], E, N>,
    map_before: MockRocksDBMap,
    map_after: MockRocksDBMap,
    hash: [u8; 32],
    data: Seq<u8>,
    sfs: Seq<SuperFeature>,
    base: Option<[u8; 32]>,
    delta: Option<Seq<u8>>,
    r: Result<usize, PalantirError>,
) -> bool {
    &&& r is Err <==> refused(before, hash, sfs, base) || (base is Some && delta is Some && (zstd_encoded(
        delta->Some_0,
    ) is None || zstd_encoded(data) is None))
    &&& r is Err ==> unchanged(before, after, map_before, map_after)
    &&& r is Ok ==> {
        &&& r == Ok::<usize, PalantirError>(data.len() as usize)
        &&& after.processed() == before.processed() + 1
        &&& added(before, after, hash, sfs)
    }
    &&& r is Ok && (base is None || delta is None) ==> stored_raw(before, after, map_before, map_after, hash, data)
    &&& r is Ok && base is Some && delta is Some ==> delta_outcome(
        before,
        after,
        map_before,
        map_after,
        hash,
        data,
        base->Some_0,
        delta->Some_0,
    )
}

/// Whether storing the chunk with fingerprint `hash` is refused: its
/// fingerprint is known, it has fewer super-features than the tiers take, or
/// its planned base is not stored.
pub open spec fn refused<S, E, const N: usize>(
    s: PalantirScrubber<S, [u8; 32], E, N>,
    hash: [u8; 32],
    sfs: Seq<SuperFeature>,
    base: Option<[u8; 32]>,
) -> bool {
    ||| s.metadata().fingerprints().contains_key(hash)
    ||| sfs.len() < s.metadata().total_features()
    ||| (base matches Some(b) && !s.metadata().fingerprints().contains_key(b))
}

/// Nothing was recorded and nothing was written.
pub open spec fn unchanged<S, E, const N: usize>(
    before: PalantirScrubber<S, [u8; 32], E, N>,
    after: PalantirScrubber<S, [u8; 32], E, N>,
    map_before: MockRocksDBMap,
    map_after: MockRocksDBMap,
) -> bool {
    &&& after.metadata().fingerprints() == before.metadata().fingerprints()
    &&& after.metadata().tiers() == before.metadata().tiers()
    &&& after.bases() == before.bases()
    &&& after.processed() == before.processed()
    &&& after.deltas() == before.deltas()
    &&& map_after.pairs() == map_before.pairs()
}

/// The choice made for a chunk with bytes `data` whose delta against `base`
/// is `delta`: the compressed delta is stored when it pays off against the
/// compressed chunk at the scrubber's threshold, and the chunk as it is
/// otherwise.
pub open spec fn delta_outcome<S, E, const N: usize>(
    before: PalantirScrubber<S, [u8; 32], E, N>,
    after: PalantirScrubber<S, [u8; 32], E, N>,
    map_before: MockRocksDBMap,
    map_after: MockRocksDBMap,
    hash: [u8; 32],
    data: Seq<u8>,
    base: [u8; 32],
    delta: Seq<u8>,
) -> bool {
    let packed = zstd_encoded(delta)->Some_0;
    let plain = zstd_encoded(data)->Some_0;
    if pays_off(packed.len(), plain.len(), before.threshold().0 as nat, before.threshold().1 as nat) {
        stored_delta(before, after, map_before, map_after, hash, base, packed)
    } else {
        stored_raw(before, after, map_before, map_after, hash, data)
    }
}

/// The chunk was stored as it is: the target map holds its bytes under its
/// fingerprint, and no base or delta count changed.
pub open spec fn stored_raw<S, E, const N: usize>(
    before: PalantirScrubber<S, [u8; 32], E, N>,
    after: PalantirScrubber<S, [u8; 32], E, N>,
    map_before: MockRocksDBMap,
    map_after: MockRocksDBMap,
    hash: [u8; 32],
    data: Seq<u8>,
) -> bool {
    &&& map_after.pairs() == upsert(map_before.pairs(), hash@, data)
    &&& after.bases() == before.bases()
    &&& after.deltas() == before.deltas()
}

/// The chunk was stored as a delta against `base`: the target map holds
/// `bytes` under its fingerprint, `base` is recorded as its base, and one
/// more delta is counted.
pub open spec fn stored_delta<S, E, const N: usize>(
    before: PalantirScrubber<S, [u8; 32], E, N>,
    after: PalantirScrubber<S, [u8; 32], E, N>,
    map_before: MockRocksDBMap,
    map_after: MockRocksDBMap,
    hash: [u8; 32],
    base: [u8; 32],
    bytes: Seq<u8>,
) -> bool {
    &&& map_after.pairs() == upsert(map_before.pairs(), hash@, bytes)
    &&& after.bases() == before.bases().insert(hash, base)
    &&& after.deltas() == before.deltas() + 1
}

/// The chunk was recorded as a new block under its own fingerprint, in the
/// fingerprint table and in every tier.
pub open spec fn added<S, E, const N: usize>(
    before: PalantirScrubber<S, [u8; 32], E, N>,
    after: PalantirScrubber<S, [u8; 32], E, N>,
    hash: [u8; 32],
    sfs: Seq<SuperFeature>,
) -> bool {
    &&& !before.metadata().fingerprints().contains_key(hash)
    &&& after.metadata().fingerprints() == before.metadata().fingerprints().insert(hash, BlockID { hash })
    &&& added_outcome(
        before.metadata().tiers(),
        after.metadata().tiers(),
        before.metadata().counts(),
        before.metadata().lifecycle(),
        N as int,
        sfs,
        BlockID { hash },
    )
}

} // verus!
