//! The tiered metadata of the Palantir pipeline: exact fingerprints and one
//! super-feature table per tier.

use vstd::prelude::*;
use crate::heuristic_index::{exhaustive_config, heuristic_candidates, lemma_exhaustive_is_plain, SearchConfig};
use crate::index::search::lemma_put_then_full_overlap;
use crate::index::error::IndexError;
use crate::index::metrics::Metric;
use crate::index::store::with_entry;
use crate::palantir::lifecycle_manager::{DropRule, LifecycleManager, LifecycleTierConfig, MetricUpdate, TierID};
use crate::palantir::tables::sf_table::{is_nearest, sf_values};
use crate::palantir::tables::{FPTable, SFTable};
use crate::palantir::types::{BlockID, SuperFeature, TierConfig};
use crate::palantir::utils::{lcm_steps_defined, lcm_vec, spec_lcm_vec};
use crate::sketch::IndexKey;

verus! {

/// A super-feature table of any width from 1 to 12.
pub enum AnySFTable<H: IndexKey> {
    /// A table of width 1.
    T1(SFTable<H, 1>),
    /// A table of width 2.
    T2(SFTable<H, 2>),
    /// A table of width 3.
    T3(SFTable<H, 3>),
    /// A table of width 4.
    T4(SFTable<H, 4>),
    /// A table of width 5.
    T5(SFTable<H, 5>),
    /// A table of width 6.
    T6(SFTable<H, 6>),
    /// A table of width 7.
    T7(SFTable<H, 7>),
    /// A table of width 8.
    T8(SFTable<H, 8>),
    /// A table of width 9.
    T9(SFTable<H, 9>),
    /// A table of width 10.
    T10(SFTable<H, 10>),
    /// A table of width 11.
    T11(SFTable<H, 11>),
    /// A table of width 12.
    T12(SFTable<H, 12>),
}

impl<H: IndexKey> AnySFTable<H> {
    /// The number of super-features the table indexes per block.
    pub open spec fn width(&self) -> nat {
        match self {
            AnySFTable::T1(t) => 1nat,
            AnySFTable::T2(t) => 2nat,
            AnySFTable::T3(t) => 3nat,
            AnySFTable::T4(t) => 4nat,
            AnySFTable::T5(t) => 5nat,
            AnySFTable::T6(t) => 6nat,
            AnySFTable::T7(t) => 7nat,
            AnySFTable::T8(t) => 8nat,
            AnySFTable::T9(t) => 9nat,
            AnySFTable::T10(t) => 10nat,
            AnySFTable::T11(t) => 11nat,
            AnySFTable::T12(t) => 12nat,
        }
    }

    /// The blocks posted under each super-feature value.
    pub open spec fn postings(&self) -> Map<u32, Set<BlockID<H>>> {
        match self {
            AnySFTable::T1(t) => t.postings(),
            AnySFTable::T2(t) => t.postings(),
            AnySFTable::T3(t) => t.postings(),
            AnySFTable::T4(t) => t.postings(),
            AnySFTable::T5(t) => t.postings(),
            AnySFTable::T6(t) => t.postings(),
            AnySFTable::T7(t) => t.postings(),
            AnySFTable::T8(t) => t.postings(),
            AnySFTable::T9(t) => t.postings(),
            AnySFTable::T10(t) => t.postings(),
            AnySFTable::T11(t) => t.postings(),
            AnySFTable::T12(t) => t.postings(),
        }
    }

    /// The lifecycle metric of each block.
    pub open spec fn metrics(&self) -> Map<BlockID<H>, Metric> {
        match self {
            AnySFTable::T1(t) => t.metrics(),
            AnySFTable::T2(t) => t.metrics(),
            AnySFTable::T3(t) => t.metrics(),
            AnySFTable::T4(t) => t.metrics(),
            AnySFTable::T5(t) => t.metrics(),
            AnySFTable::T6(t) => t.metrics(),
            AnySFTable::T7(t) => t.metrics(),
            AnySFTable::T8(t) => t.metrics(),
            AnySFTable::T9(t) => t.metrics(),
            AnySFTable::T10(t) => t.metrics(),
            AnySFTable::T11(t) => t.metrics(),
            AnySFTable::T12(t) => t.metrics(),
        }
    }

    /// The false-positive metric of each block.
    pub open spec fn fp_metrics(&self) -> Map<BlockID<H>, Metric> {
        match self {
            AnySFTable::T1(t) => t.fp_metrics(),
            AnySFTable::T2(t) => t.fp_metrics(),
            AnySFTable::T3(t) => t.fp_metrics(),
            AnySFTable::T4(t) => t.fp_metrics(),
            AnySFTable::T5(t) => t.fp_metrics(),
            AnySFTable::T6(t) => t.fp_metrics(),
            AnySFTable::T7(t) => t.fp_metrics(),
            AnySFTable::T8(t) => t.fp_metrics(),
            AnySFTable::T9(t) => t.fp_metrics(),
            AnySFTable::T10(t) => t.fp_metrics(),
            AnySFTable::T11(t) => t.fp_metrics(),
            AnySFTable::T12(t) => t.fp_metrics(),
        }
    }

    /// The search configuration.
    pub open spec fn config(&self) -> SearchConfig {
        match self {
            AnySFTable::T1(t) => t.config(),
            AnySFTable::T2(t) => t.config(),
            AnySFTable::T3(t) => t.config(),
            AnySFTable::T4(t) => t.config(),
            AnySFTable::T5(t) => t.config(),
            AnySFTable::T6(t) => t.config(),
            AnySFTable::T7(t) => t.config(),
            AnySFTable::T8(t) => t.config(),
            AnySFTable::T9(t) => t.config(),
            AnySFTable::T10(t) => t.config(),
            AnySFTable::T11(t) => t.config(),
            AnySFTable::T12(t) => t.config(),
        }
    }

    /// An empty table of width `index` searching with `config`, or `None`
    /// when `index` is not between 1 and 12.
    pub fn from_index(index: u32, config: &SearchConfig) -> (r: Option<Self>)
        requires
            vstd::std_specs::hash::obeys_key_model::<BlockID<H>>(),
        ensures
            r is Some <==> 1 <= index <= 12,
            r matches Some(t) ==> {
                &&& t.width() == index
                &&& t.postings() == Map::<u32, Set<BlockID<H>>>::empty()
                &&& t.metrics() == Map::<BlockID<H>, Metric>::empty()
                &&& t.fp_metrics() == Map::<BlockID<H>, Metric>::empty()
                &&& t.config() == *config
            },
    {
        match index {
            1 => Some(AnySFTable::T1(SFTable::new(*config))),
            2 => Some(AnySFTable::T2(SFTable::new(*config))),
            3 => Some(AnySFTable::T3(SFTable::new(*config))),
            4 => Some(AnySFTable::T4(SFTable::new(*config))),
            5 => Some(AnySFTable::T5(SFTable::new(*config))),
            6 => Some(AnySFTable::T6(SFTable::new(*config))),
            7 => Some(AnySFTable::T7(SFTable::new(*config))),
            8 => Some(AnySFTable::T8(SFTable::new(*config))),
            9 => Some(AnySFTable::T9(SFTable::new(*config))),
            10 => Some(AnySFTable::T10(SFTable::new(*config))),
            11 => Some(AnySFTable::T11(SFTable::new(*config))),
            12 => Some(AnySFTable::T12(SFTable::new(*config))),
            _ => None,
        }
    }

    /// The stored block whose super-features best match `features`.
    pub fn nearest(&self, features: &[SuperFeature]) -> (r: Option<BlockID<H>>)
        ensures
            is_nearest(self.postings(), self.config(), self.fp_metrics(), self.width(), features@, r),
    {
        match self {
            AnySFTable::T1(t) => t.nearest(features),
            AnySFTable::T2(t) => t.nearest(features),
            AnySFTable::T3(t) => t.nearest(features),
            AnySFTable::T4(t) => t.nearest(features),
            AnySFTable::T5(t) => t.nearest(features),
            AnySFTable::T6(t) => t.nearest(features),
            AnySFTable::T7(t) => t.nearest(features),
            AnySFTable::T8(t) => t.nearest(features),
            AnySFTable::T9(t) => t.nearest(features),
            AnySFTable::T10(t) => t.nearest(features),
            AnySFTable::T11(t) => t.nearest(features),
            AnySFTable::T12(t) => t.nearest(features),
        }
    }

    /// Posts `block_id` under its super-feature values and sets its
    /// lifecycle metric.
    pub fn insert(&mut self, block_id: &BlockID<H>, features: &[SuperFeature], metric: Metric)
        requires
            features@.len() == old(self).width(),
        ensures
            final(self).width() == old(self).width(),
            final(self).postings() == with_entry(old(self).postings(), *block_id, sf_values(features@)),
            final(self).metrics() == old(self).metrics().insert(*block_id, metric),
            final(self).fp_metrics() == old(self).fp_metrics(),
            final(self).config() == old(self).config(),
    {
        match self {
            AnySFTable::T1(t) => t.insert(block_id, features, metric),
            AnySFTable::T2(t) => t.insert(block_id, features, metric),
            AnySFTable::T3(t) => t.insert(block_id, features, metric),
            AnySFTable::T4(t) => t.insert(block_id, features, metric),
            AnySFTable::T5(t) => t.insert(block_id, features, metric),
            AnySFTable::T6(t) => t.insert(block_id, features, metric),
            AnySFTable::T7(t) => t.insert(block_id, features, metric),
            AnySFTable::T8(t) => t.insert(block_id, features, metric),
            AnySFTable::T9(t) => t.insert(block_id, features, metric),
            AnySFTable::T10(t) => t.insert(block_id, features, metric),
            AnySFTable::T11(t) => t.insert(block_id, features, metric),
            AnySFTable::T12(t) => t.insert(block_id, features, metric),
        }
    }

    /// The number of distinct super-feature values with postings.
    pub fn len(&self) -> (r: usize)
        ensures
            r == self.postings().len(),
    {
        match self {
            AnySFTable::T1(t) => t.len(),
            AnySFTable::T2(t) => t.len(),
            AnySFTable::T3(t) => t.len(),
            AnySFTable::T4(t) => t.len(),
            AnySFTable::T5(t) => t.len(),
            AnySFTable::T6(t) => t.len(),
            AnySFTable::T7(t) => t.len(),
            AnySFTable::T8(t) => t.len(),
            AnySFTable::T9(t) => t.len(),
            AnySFTable::T10(t) => t.len(),
            AnySFTable::T11(t) => t.len(),
            AnySFTable::T12(t) => t.len(),
        }
    }

    /// Whether no super-feature value has postings.
    pub fn is_empty(&self) -> (r: bool)
        ensures
            r == (self.postings().len() == 0),
    {
        match self {
            AnySFTable::T1(t) => t.is_empty(),
            AnySFTable::T2(t) => t.is_empty(),
            AnySFTable::T3(t) => t.is_empty(),
            AnySFTable::T4(t) => t.is_empty(),
            AnySFTable::T5(t) => t.is_empty(),
            AnySFTable::T6(t) => t.is_empty(),
            AnySFTable::T7(t) => t.is_empty(),
            AnySFTable::T8(t) => t.is_empty(),
            AnySFTable::T9(t) => t.is_empty(),
            AnySFTable::T10(t) => t.is_empty(),
            AnySFTable::T11(t) => t.is_empty(),
            AnySFTable::T12(t) => t.is_empty(),
        }
    }

    /// Searches like [`AnySFTable::nearest`] and applies `update` to the
    /// lifecycle metric of the block found, a missing metric counting as
    /// zero.
    pub fn get_with_upd_metric(&mut self, features: &[SuperFeature], update: MetricUpdate) -> (r: Option<
        BlockID<H>,
    >)
        ensures
            is_nearest(old(self).postings(), old(self).config(), old(self).fp_metrics(), old(self).width(), features@, r),
            final(self).metrics() == (match r {
                Some(b) => old(self).metrics().insert(b, update.spec_apply(
                    if old(self).metrics().contains_key(b) { old(self).metrics()[b] } else { 0 },
                )),
                None => old(self).metrics(),
            }),
            final(self).width() == old(self).width(),
            final(self).postings() == old(self).postings(),
            final(self).fp_metrics() == old(self).fp_metrics(),
            final(self).config() == old(self).config(),
    {
        match self {
            AnySFTable::T1(t) => t.get_with_upd_metric(features, update),
            AnySFTable::T2(t) => t.get_with_upd_metric(features, update),
            AnySFTable::T3(t) => t.get_with_upd_metric(features, update),
            AnySFTable::T4(t) => t.get_with_upd_metric(features, update),
            AnySFTable::T5(t) => t.get_with_upd_metric(features, update),
            AnySFTable::T6(t) => t.get_with_upd_metric(features, update),
            AnySFTable::T7(t) => t.get_with_upd_metric(features, update),
            AnySFTable::T8(t) => t.get_with_upd_metric(features, update),
            AnySFTable::T9(t) => t.get_with_upd_metric(features, update),
            AnySFTable::T10(t) => t.get_with_upd_metric(features, update),
            AnySFTable::T11(t) => t.get_with_upd_metric(features, update),
            AnySFTable::T12(t) => t.get_with_upd_metric(features, update),
        }
    }

    /// Applies `update` to every lifecycle metric, then drops the entries
    /// whose updated metric `rule` rejects.
    pub fn update_and_clean(&mut self, update: MetricUpdate, rule: DropRule) -> (r: Result<(), IndexError>)
        ensures
            r is Ok,
            final(self).metrics().dom() == old(self).metrics().dom().filter(
                |b: BlockID<H>| !rule.spec_drops(update.spec_apply(old(self).metrics()[b])),
            ),
            forall|b: BlockID<H>| #[trigger] final(self).metrics().contains_key(b) ==> final(self).metrics()[b]
                == update.spec_apply(old(self).metrics()[b]),
            final(self).width() == old(self).width(),
            final(self).postings() == old(self).postings(),
            final(self).fp_metrics() == old(self).fp_metrics(),
            final(self).config() == old(self).config(),
    {
        match self {
            AnySFTable::T1(t) => t.update_and_clean(update, rule),
            AnySFTable::T2(t) => t.update_and_clean(update, rule),
            AnySFTable::T3(t) => t.update_and_clean(update, rule),
            AnySFTable::T4(t) => t.update_and_clean(update, rule),
            AnySFTable::T5(t) => t.update_and_clean(update, rule),
            AnySFTable::T6(t) => t.update_and_clean(update, rule),
            AnySFTable::T7(t) => t.update_and_clean(update, rule),
            AnySFTable::T8(t) => t.update_and_clean(update, rule),
            AnySFTable::T9(t) => t.update_and_clean(update, rule),
            AnySFTable::T10(t) => t.update_and_clean(update, rule),
            AnySFTable::T11(t) => t.update_and_clean(update, rule),
            AnySFTable::T12(t) => t.update_and_clean(update, rule),
        }
    }
}

/// The number of raw features of a tier configuration: the override when
/// one is given, and otherwise the LCM of the group sizes.
pub open spec fn features_num_of<const N: usize>(tc: TierConfig<N>) -> nat {
    match tc.features_num {
        Some(v) => v as nat,
        None => match spec_lcm_vec(tc.tier_list@) {
            Some(l) => l as nat,
            None => 0,
        },
    }
}

/// Where the super-features of tier `i` start: the tiers before it take
/// `counts[0] + ... + counts[i - 1]` of them.
pub open spec fn tier_offset(counts: Seq<usize>, i: int) -> nat
    decreases i,
{
    if i <= 0 {
        0
    } else {
        tier_offset(counts, i - 1) + counts[i - 1] as nat
    }
}

/// The super-features of tier `i`.
pub open spec fn tier_slice(sfs: Seq<SuperFeature>, counts: Seq<usize>, i: int) -> Seq<SuperFeature> {
    sfs.subrange(tier_offset(counts, i) as int, tier_offset(counts, i) + counts[i])
}

/// The answer of tier `t` to a nearest-block search for `features`.
pub open spec fn tier_answer<H>(t: AnySFTable<H>, features: Seq<SuperFeature>, r: Option<BlockID<H>>) -> bool
    where H: IndexKey
{
    is_nearest(t.postings(), t.config(), t.fp_metrics(), t.width(), features, r)
}

/// Two tables that agree on width, postings, metrics and configuration.
pub open spec fn same_views<H>(a: AnySFTable<H>, b: AnySFTable<H>) -> bool
    where H: IndexKey
{
    &&& a.width() == b.width()
    &&& a.postings() == b.postings()
    &&& a.metrics() == b.metrics()
    &&& a.fp_metrics() == b.fp_metrics()
    &&& a.config() == b.config()
}

/// The effect of a tiered lookup of `sfs` answered by `r`: the tiers before
/// the answering one find nothing, the answering tier finds the block and
/// updates its metric by the tier's after-use policy, and no other table
/// changes; with no answer, no tier finds anything and nothing changes.
pub open spec fn lookup_outcome<H: IndexKey>(
    before: Seq<AnySFTable<H>>,
    after: Seq<AnySFTable<H>>,
    counts: Seq<usize>,
    lifecycle: Seq<LifecycleTierConfig>,
    n: int,
    sfs: Seq<SuperFeature>,
    r: Option<(BlockID<H>, TierID)>,
) -> bool {
    match r {
        Some((b, t)) => {
            let i = t as int;
            &&& i < n
            &&& forall|j: int| 0 <= j < i ==> tier_answer(#[trigger] before[j], tier_slice(sfs, counts, j), None)
            &&& tier_answer(before[i], tier_slice(sfs, counts, i), Some(b))
            &&& forall|j: int| 0 <= j < n && j != i ==> same_views(#[trigger] after[j], before[j])
            &&& after[i].metrics() == before[i].metrics().insert(b, lifecycle[i].spec_after_use().spec_apply(
                if before[i].metrics().contains_key(b) { before[i].metrics()[b] } else { 0 },
            ))
            &&& after[i].width() == before[i].width()
            &&& after[i].postings() == before[i].postings()
            &&& after[i].fp_metrics() == before[i].fp_metrics()
            &&& after[i].config() == before[i].config()
        },
        None => forall|j: int| 0 <= j < n ==> {
            &&& tier_answer(#[trigger] before[j], tier_slice(sfs, counts, j), None)
            &&& same_views(after[j], before[j])
        },
    }
}

/// The effect on the tiers of adding `block_id` with super-features `sfs`:
/// every tier posts the block under the values of its slice and gives it
/// the tier's default metric.
pub open spec fn added_outcome<H: IndexKey>(
    before: Seq<AnySFTable<H>>,
    after: Seq<AnySFTable<H>>,
    counts: Seq<usize>,
    lifecycle: Seq<LifecycleTierConfig>,
    n: int,
    sfs: Seq<SuperFeature>,
    block_id: BlockID<H>,
) -> bool {
    forall|j: int| 0 <= j < n ==> {
        &&& (#[trigger] after[j]).postings() == with_entry(
            before[j].postings(),
            block_id,
            sf_values(tier_slice(sfs, counts, j)),
        )
        &&& after[j].metrics() == before[j].metrics().insert(block_id, lifecycle[j].spec_default_metric())
        &&& after[j].width() == before[j].width()
        &&& after[j].fp_metrics() == before[j].fp_metrics()
        &&& after[j].config() == before[j].config()
    }
}

/// The effect of ending a version: every tier updates its metrics by its
/// between-backups policy and drops the entries its rule rejects.
pub open spec fn aged_outcome<H: IndexKey>(
    before: Seq<AnySFTable<H>>,
    after: Seq<AnySFTable<H>>,
    lifecycle: Seq<LifecycleTierConfig>,
    n: int,
) -> bool {
    forall|j: int| 0 <= j < n ==> {
        let update = lifecycle[j].spec_between_backups();
        let rule = lifecycle[j].spec_drop_rule();
        &&& (#[trigger] after[j]).metrics().dom() == before[j].metrics().dom().filter(
            |b: BlockID<H>| !rule.spec_drops(update.spec_apply(before[j].metrics()[b])),
        )
        &&& forall|b: BlockID<H>| #[trigger] after[j].metrics().contains_key(b) ==> after[j].metrics()[b]
            == update.spec_apply(before[j].metrics()[b])
        &&& after[j].postings() == before[j].postings()
        &&& after[j].width() == before[j].width()
        &&& after[j].fp_metrics() == before[j].fp_metrics()
        &&& after[j].config() == before[j].config()
    }
}

/// A block just added is found again: a lookup of the super-features it
/// was added with, in a tier that searches with every heuristic disabled,
/// finds a block, since the added block shares all of them.
pub proof fn lemma_added_block_found<H: IndexKey>(
    before: Seq<AnySFTable<H>>,
    after: Seq<AnySFTable<H>>,
    counts: Seq<usize>,
    lifecycle: Seq<LifecycleTierConfig>,
    n: int,
    sfs: Seq<SuperFeature>,
    block_id: BlockID<H>,
    j: int,
)
    requires
        added_outcome(before, after, counts, lifecycle, n, sfs, block_id),
        0 <= j < n,
        after[j].config() == exhaustive_config(),
        after[j].width() > 0,
        tier_slice(sfs, counts, j).len() == after[j].width(),
    ensures
        !tier_answer(after[j], tier_slice(sfs, counts, j), None),
{
    let q = sf_values(tier_slice(sfs, counts, j));
    let p = after[j].postings();
    assert(p == with_entry(before[j].postings(), block_id, q));
    lemma_exhaustive_is_plain(p, q, after[j].fp_metrics());
    lemma_put_then_full_overlap(before[j].postings(), block_id, q);
    assert(heuristic_candidates(p, q, after[j].config(), after[j].fp_metrics()).contains_key(block_id));
}

/// A lookup changes no postings.
pub proof fn lemma_lookup_same_postings<H: IndexKey>(
    before: Seq<AnySFTable<H>>,
    after: Seq<AnySFTable<H>>,
    counts: Seq<usize>,
    lifecycle: Seq<LifecycleTierConfig>,
    n: int,
    sfs: Seq<SuperFeature>,
    r: Option<(BlockID<H>, TierID)>,
)
    requires
        lookup_outcome(before, after, counts, lifecycle, n, sfs, r),
    ensures
        forall|j: int| 0 <= j < n ==> (#[trigger] after[j]).postings() == before[j].postings(),
{
    assert forall|j: int| 0 <= j < n implies (#[trigger] after[j]).postings() == before[j].postings() by {
        match r {
            Some((b, t)) => {
                if j != t as int {
                    assert(same_views(after[j], before[j]));
                }
            },
            None => {
                assert(same_views(after[j], before[j]));
            },
        }
    }
}

/// Offsets grow with the tier index.
proof fn lemma_offset_mono(counts: Seq<usize>, i: int, j: int)
    requires
        0 <= i <= j,
    ensures
        tier_offset(counts, i) <= tier_offset(counts, j),
    decreases j,
{
    if i < j {
        lemma_offset_mono(counts, i, j - 1);
    }
}

/// Metadata of the Palantir pipeline: an exact fingerprint table and one
/// super-feature table per tier, with the tiers' lifecycle policies.
pub struct MetadataManager<H: IndexKey, const N: usize> {
    fp_table: FPTable<H>,
    sf_tables: Vec<AnySFTable<H>>,
    sf_counts: Vec<usize>,
    lifecycle_manager: LifecycleManager<N>,
}

impl<H: IndexKey, const N: usize> MetadataManager<H, N> {
    /// The block recorded for each fingerprint.
    pub closed spec fn fingerprints(&self) -> Map<H, BlockID<H>> {
        self.fp_table.entries()
    }

    /// The super-feature table of each tier.
    pub closed spec fn tiers(&self) -> Seq<AnySFTable<H>> {
        self.sf_tables@
    }

    /// The number of super-features each tier takes.
    pub closed spec fn counts(&self) -> Seq<usize> {
        self.sf_counts@
    }

    /// The lifecycle policy of each tier.
    pub closed spec fn lifecycle(&self) -> Seq<LifecycleTierConfig> {
        self.lifecycle_manager.configs()
    }

    /// One table and one count per tier, each table as wide as its count,
    /// and at most 256 tiers so that every tier has a [`TierID`].
    pub closed spec fn wf(&self) -> bool {
        &&& N <= 256
        &&& self.sf_tables@.len() == N
        &&& self.sf_counts@.len() == N
        &&& self.lifecycle_manager.configs().len() == N
        &&& forall|i: int| 0 <= i < N ==> (#[trigger] self.sf_tables@[i]).width() == self.sf_counts@[i]
        &&& forall|i: int| 0 <= i < N ==> 1 <= #[trigger] self.sf_counts@[i] <= 12
    }

    /// The number of super-features a block brings, as computed.
    pub(crate) fn feature_count(&self) -> (r: usize)
        requires
            self.wf(),
        ensures
            r == self.total_features(),
    {
        let mut total: usize = 0;
        let mut i: usize = 0;
        while i < N
            invariant
                self.wf(),
                0 <= i <= N,
                total == tier_offset(self.sf_counts@, i as int),
                total <= 12 * i,
            decreases N - i,
        {
            total = total + self.sf_counts[i];
            i += 1;
        }
        total
    }

    /// The number of super-features a block brings: the sum of the tier
    /// counts.
    pub open spec fn total_features(&self) -> nat {
        tier_offset(self.counts(), N as int)
    }

    /// Creates empty tables for the tiers of `tier_config`, each searching
    /// with `search_config`.
    ///
    /// Tier `i` takes `features_num / tier_list[i]` super-features, where
    /// `features_num` is the override of the configuration or the LCM of
    /// its group sizes; each tier must take between 1 and 12 of them.
    pub fn new(
        tier_config: TierConfig<N>,
        lifecycle_configs: [LifecycleTierConfig; N],
        search_config: &SearchConfig,
    ) -> (r: Self)
        requires
            vstd::std_specs::hash::obeys_key_model::<H>(),
            vstd::std_specs::hash::obeys_key_model::<BlockID<H>>(),
            N <= 256,
            tier_config.features_num is None ==> lcm_steps_defined(tier_config.tier_list@)
                && spec_lcm_vec(tier_config.tier_list@) is Some,
            forall|i: int| 0 <= i < N ==> #[trigger] tier_config.tier_list@[i] > 0 && 1 <= features_num_of(
                tier_config,
            ) / (tier_config.tier_list@[i] as nat) <= 12,
        ensures
            r.wf(),
            r.fingerprints() == Map::<H, BlockID<H>>::empty(),
            r.lifecycle() == lifecycle_configs@,
            forall|i: int| 0 <= i < N ==> #[trigger] r.counts()[i] == features_num_of(tier_config) / (
                tier_config.tier_list@[i] as nat),
            forall|i: int| 0 <= i < N ==> {
                let t = #[trigger] r.tiers()[i];
                &&& t.width() == r.counts()[i]
                &&& t.postings() == Map::<u32, Set<BlockID<H>>>::empty()
                &&& t.metrics() == Map::<BlockID<H>, Metric>::empty()
                &&& t.fp_metrics() == Map::<BlockID<H>, Metric>::empty()
                &&& t.config() == *search_config
            },
    {
        let features_num: usize = match tier_config.features_num {
            Some(v) => v,
            None => {
                let l = lcm_vec(&tier_config.tier_list);
                match l {
                    Some(l) => l as usize,
                    None => 0,
                }
            },
        };
        let mut sf_counts: Vec<usize> = Vec::new();
        let mut sf_tables: Vec<AnySFTable<H>> = Vec::new();
        let mut i: usize = 0;
        while i < N
            invariant
                i <= N,
                features_num == features_num_of(tier_config),
                vstd::std_specs::hash::obeys_key_model::<BlockID<H>>(),
                forall|i: int| 0 <= i < N ==> #[trigger] tier_config.tier_list@[i] > 0 && 1 <= features_num_of(
                    tier_config,
                ) / (tier_config.tier_list@[i] as nat) <= 12,
                sf_counts@.len() == i,
                sf_tables@.len() == i,
                forall|j: int| 0 <= j < i ==> #[trigger] sf_counts@[j] == features_num_of(tier_config) / (
                    tier_config.tier_list@[j] as nat),
                forall|j: int| 0 <= j < i ==> (#[trigger] sf_tables@[j]).width() == sf_counts@[j],
                forall|j: int| 0 <= j < i ==> {
                    let t = #[trigger] sf_tables@[j];
                    &&& t.postings() == Map::<u32, Set<BlockID<H>>>::empty()
                    &&& t.metrics() == Map::<BlockID<H>, Metric>::empty()
                    &&& t.fp_metrics() == Map::<BlockID<H>, Metric>::empty()
                    &&& t.config() == *search_config
                },
            decreases N - i,
        {
            let group = tier_config.tier_list[i];
            assert(tier_config.tier_list@[i as int] == group);
            let count: usize = features_num / (group as usize);
            let table = AnySFTable::from_index(count as u32, search_config);
            match table {
                Some(t) => {
                    sf_counts.push(count);
                    sf_tables.push(t);
                },
                None => {
                    assert(false);
                    return MetadataManager {
                        fp_table: FPTable::new(),
                        sf_tables,
                        sf_counts,
                        lifecycle_manager: LifecycleManager::new(lifecycle_configs),
                    };
                },
            }
            i += 1;
        }
        MetadataManager {
            fp_table: FPTable::new(),
            sf_tables,
            sf_counts,
            lifecycle_manager: LifecycleManager::new(lifecycle_configs),
        }
    }

    /// The block recorded for `fingerprint`, if any.
    pub fn lookup_fingerprint(&self, fingerprint: &H) -> (r: Option<&BlockID<H>>)
        ensures
            r == (if self.fingerprints().contains_key(*fingerprint) {
                Some(&self.fingerprints()[*fingerprint])
            } else {
                None
            }),
    {
        self.fp_table.lookup(fingerprint)
    }

    /// Searches the tiers in order for a block similar to the one with
    /// `super_features`: the first tier that finds one answers, and the
    /// metric of the block found is updated by that tier's after-use policy.
    pub fn lookup_super_features(&mut self, super_features: &[SuperFeature]) -> (r: Option<(BlockID<H>, TierID)>)
        requires
            old(self).wf(),
            old(self).total_features() <= super_features@.len(),
        ensures
            final(self).wf(),
            final(self).fingerprints() == old(self).fingerprints(),
            final(self).counts() == old(self).counts(),
            final(self).lifecycle() == old(self).lifecycle(),
            lookup_outcome(old(self).tiers(), final(self).tiers(), old(self).counts(), old(self).lifecycle(), N as int, super_features@, r),
    {
        let ghost counts = self.sf_counts@;
        let ghost tiers0 = self.sf_tables@;
        let sf_len = super_features.len();
        let mut first_index: usize;
        let mut last_index: usize = 0;
        let mut i: usize = 0;
        while i < N
            invariant
                self.wf(),
                0 <= i <= N,
                counts == self.sf_counts@,
                counts == old(self).counts(),
                tiers0 == old(self).tiers(),
                self.fp_table == old(self).fp_table,
                self.lifecycle_manager == old(self).lifecycle_manager,
                tier_offset(counts, N as int) <= super_features@.len(),
                sf_len == super_features@.len(),
                last_index == tier_offset(counts, i as int),
                forall|j: int| 0 <= j < i ==> tier_answer(
                    #[trigger] tiers0[j],
                    tier_slice(super_features@, counts, j),
                    None,
                ),
                forall|j: int| 0 <= j < i ==> same_views(#[trigger] self.sf_tables@[j], tiers0[j]),
                forall|j: int| i <= j < N ==> #[trigger] self.sf_tables@[j] == tiers0[j],
            decreases N - i,
        {
            proof {
                lemma_offset_mono(counts, i + 1, N as int);
                assert(tier_offset(counts, i + 1) == tier_offset(counts, i as int) + counts[i as int]);
            }
            first_index = last_index;
            last_index = last_index + self.sf_counts[i];
            let slice = vstd::slice::slice_subrange(super_features, first_index, last_index);
            let upd = self.lifecycle_manager.tier_after_use_upd_fn(i as TierID);
            let ghost before_tables = self.sf_tables@;
            let found = self.sf_tables[i].get_with_upd_metric(slice, upd);
            proof {
                assert(slice@ == tier_slice(super_features@, counts, i as int));
                assert forall|j: int| 0 <= j < N && j != i implies #[trigger] self.sf_tables@[j] == before_tables[j] by {}
            }
            match found {
                Some(b) => {
                    return Some((b, i as TierID));
                },
                None => {},
            }
            i += 1;
        }
        None
    }

    /// Records a new block: its fingerprint, and in every tier its
    /// super-features with the tier's default metric.
    pub fn add_block(&mut self, fingerprint: H, super_features: &[SuperFeature], block_id: BlockID<H>)
        requires
            old(self).wf(),
            old(self).total_features() <= super_features@.len(),
        ensures
            final(self).wf(),
            final(self).fingerprints() == old(self).fingerprints().insert(fingerprint, block_id),
            final(self).counts() == old(self).counts(),
            final(self).lifecycle() == old(self).lifecycle(),
            added_outcome(old(self).tiers(), final(self).tiers(), old(self).counts(), old(self).lifecycle(), N as int, super_features@, block_id),
    {
        self.fp_table.insert(fingerprint, block_id);
        let ghost counts = self.sf_counts@;
        let ghost tiers0 = self.sf_tables@;
        let sf_len = super_features.len();
        let mut first_index: usize;
        let mut last_index: usize = 0;
        let mut i: usize = 0;
        while i < N
            invariant
                self.wf(),
                0 <= i <= N,
                counts == self.sf_counts@,
                counts == old(self).counts(),
                tiers0 == old(self).tiers(),
                self.fp_table.entries() == old(self).fingerprints().insert(fingerprint, block_id),
                self.lifecycle_manager == old(self).lifecycle_manager,
                tier_offset(counts, N as int) <= super_features@.len(),
                sf_len == super_features@.len(),
                last_index == tier_offset(counts, i as int),
                forall|j: int| 0 <= j < i ==> {
                    let before = tiers0[j];
                    let after = #[trigger] self.sf_tables@[j];
                    &&& after.postings() == with_entry(
                        before.postings(),
                        block_id,
                        sf_values(tier_slice(super_features@, counts, j)),
                    )
                    &&& after.metrics() == before.metrics().insert(block_id, self.lifecycle_manager.configs()[j].spec_default_metric())
                    &&& after.width() == before.width()
                    &&& after.fp_metrics() == before.fp_metrics()
                    &&& after.config() == before.config()
                },
                forall|j: int| i <= j < N ==> #[trigger] self.sf_tables@[j] == tiers0[j],
            decreases N - i,
        {
            proof {
                lemma_offset_mono(counts, i + 1, N as int);
                assert(tier_offset(counts, i + 1) == tier_offset(counts, i as int) + counts[i as int]);
            }
            first_index = last_index;
            last_index = last_index + self.sf_counts[i];
            let slice = vstd::slice::slice_subrange(super_features, first_index, last_index);
            let metric = self.lifecycle_manager.default_tier_metric(i as TierID);
            let ghost before_tables = self.sf_tables@;
            self.sf_tables[i].insert(&block_id, slice, metric);
            proof {
                assert(slice@ == tier_slice(super_features@, counts, i as int));
                assert forall|j: int| 0 <= j < N && j != i implies #[trigger] self.sf_tables@[j] == before_tables[j] by {}
            }
            i += 1;
        }
    }

    /// Ends a backup version: every tier ages its metrics by its
    /// between-backups policy and drops the entries its rule rejects.
    pub fn finish_version(&mut self) -> (r: Result<(), IndexError>)
        requires
            old(self).wf(),
        ensures
            r is Ok,
            final(self).wf(),
            final(self).fingerprints() == old(self).fingerprints(),
            final(self).counts() == old(self).counts(),
            final(self).lifecycle() == old(self).lifecycle(),
            aged_outcome(old(self).tiers(), final(self).tiers(), old(self).lifecycle(), N as int),
    {
        let ghost tiers0 = self.sf_tables@;
        let mut i: usize = 0;
        while i < N
            invariant
                self.wf(),
                0 <= i <= N,
                tiers0 == old(self).tiers(),
                self.sf_counts == old(self).sf_counts,
                self.fp_table == old(self).fp_table,
                self.lifecycle_manager == old(self).lifecycle_manager,
                forall|j: int| 0 <= j < i ==> {
                    let before = tiers0[j];
                    let after = #[trigger] self.sf_tables@[j];
                    let update = self.lifecycle_manager.configs()[j].spec_between_backups();
                    let rule = self.lifecycle_manager.configs()[j].spec_drop_rule();
                    &&& after.metrics().dom() == before.metrics().dom().filter(
                        |b: BlockID<H>| !rule.spec_drops(update.spec_apply(before.metrics()[b])),
                    )
                    &&& forall|b: BlockID<H>| #[trigger] after.metrics().contains_key(b) ==> after.metrics()[b]
                        == update.spec_apply(before.metrics()[b])
                    &&& after.postings() == before.postings()
                    &&& after.width() == before.width()
                    &&& after.fp_metrics() == before.fp_metrics()
                    &&& after.config() == before.config()
                },
                forall|j: int| i <= j < N ==> #[trigger] self.sf_tables@[j] == tiers0[j],
            decreases N - i,
        {
            let upd_fn = self.lifecycle_manager.tier_between_backups_upd_fn(i as TierID);
            let filter_fn = self.lifecycle_manager.tier_drop_or_not_fn(i as TierID);
            let ghost before_tables = self.sf_tables@;
            let _ = self.sf_tables[i].update_and_clean(upd_fn, filter_fn);
            proof {
                assert forall|j: int| 0 <= j < N && j != i implies #[trigger] self.sf_tables@[j] == before_tables[j] by {}
            }
            i += 1;
        }
        Ok(())
    }

    /// The number of recorded fingerprints.
    pub fn fp_table_size(&self) -> (r: usize)
        ensures
            r == self.fingerprints().len(),
    {
        self.fp_table.len()
    }

    /// The number of super-feature values with postings, over all tiers.
    pub fn sf_table_size(&self) -> (r: usize)
        requires
            self.wf(),
            postings_total(self.tiers(), N as int) <= usize::MAX,
        ensures
            r == postings_total(self.tiers(), N as int),
    {
        let mut total: usize = 0;
        let mut i: usize = 0;
        while i < N
            invariant
                self.wf(),
                0 <= i <= N,
                postings_total(self.tiers(), N as int) <= usize::MAX,
                total == postings_total(self.tiers(), i as int),
            decreases N - i,
        {
            proof {
                lemma_postings_total_mono(self.tiers(), i + 1, N as int);
            }
            total = total + self.sf_tables[i].len();
            i += 1;
        }
        total
    }
}

/// The number of super-feature values with postings in the first `i`
/// tables.
pub open spec fn postings_total<H: IndexKey>(tiers: Seq<AnySFTable<H>>, i: int) -> nat
    decreases i,
{
    if i <= 0 {
        0
    } else {
        postings_total(tiers, i - 1) + tiers[i - 1].postings().len()
    }
}

/// Totals grow with the number of tables counted.
proof fn lemma_postings_total_mono<H: IndexKey>(tiers: Seq<AnySFTable<H>>, i: int, j: int)
    requires
        0 <= i <= j,
    ensures
        postings_total(tiers, i) <= postings_total(tiers, j),
    decreases j,
{
    if i < j {
        lemma_postings_total_mono(tiers, i, j - 1);
    }
}

} // verus!
