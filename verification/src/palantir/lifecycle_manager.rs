//! Per-tier lifecycle policies of super-feature metrics.

use vstd::prelude::*;
use crate::index::metrics::Metric;

verus! {

/// Index of a super-feature tier.
pub type TierID = u8;

/// How a tier's metric changes: after a successful lookup, or between
/// backup versions.
#[derive(Debug, Clone, Copy, PartialEq, Eq)]
pub enum MetricUpdate {
    /// The metric becomes zero.
    Zero,
    /// The metric keeps its value.
    Keep,
    /// The metric drops by one, wrapping from zero to the maximum.
    Decrement,
}

/// Which metrics make a tier drop an entry.
#[derive(Debug, Clone, Copy, PartialEq, Eq)]
pub enum DropRule {
    /// Entries are never dropped.
    Never,
    /// Entries whose metric is zero are dropped.
    WhenZero,
}

impl MetricUpdate {
    /// The metric after the update.
    pub open spec fn spec_apply(self, m: Metric) -> Metric {
        match self {
            MetricUpdate::Zero => 0,
            MetricUpdate::Keep => m,
            MetricUpdate::Decrement => if m == 0 { Metric::MAX } else { (m - 1) as Metric },
        }
    }

    /// Applies the update to a metric.
    pub fn apply(&self, m: Metric) -> (r: Metric)
        ensures
            r == self.spec_apply(m),
    {
        match self {
            MetricUpdate::Zero => 0,
            MetricUpdate::Keep => m,
            MetricUpdate::Decrement => m.wrapping_sub(1),
        }
    }
}

impl DropRule {
    /// Whether an entry with this metric is dropped.
    pub open spec fn spec_drops(self, m: Metric) -> bool {
        match self {
            DropRule::Never => false,
            DropRule::WhenZero => m == 0,
        }
    }

    /// Returns whether an entry with metric `m` is dropped.
    pub fn drops(&self, m: Metric) -> (r: bool)
        ensures
            r == self.spec_drops(m),
    {
        match self {
            DropRule::Never => false,
            DropRule::WhenZero => m == 0,
        }
    }
}

/// The lifecycle policy of one tier.
#[derive(Debug, Clone, Copy, PartialEq, Eq)]
pub struct LifecycleTierConfig {
    default_metric: Metric,
    after_use_upd_fn: MetricUpdate,
    between_backups_upd_fn: MetricUpdate,
    drop_or_not_fn: DropRule,
}

/// The policy with the given default metric, updates and drop rule.
pub closed spec fn tier_policy(
    default_metric: Metric,
    after_use_upd_fn: MetricUpdate,
    between_backups_upd_fn: MetricUpdate,
    drop_or_not_fn: DropRule,
) -> LifecycleTierConfig {
    LifecycleTierConfig { default_metric, after_use_upd_fn, between_backups_upd_fn, drop_or_not_fn }
}

impl LifecycleTierConfig {
    /// The metric a new entry of the tier starts with.
    pub closed spec fn spec_default_metric(&self) -> Metric {
        self.default_metric
    }

    /// The update applied to an entry's metric when a lookup returns it.
    pub closed spec fn spec_after_use(&self) -> MetricUpdate {
        self.after_use_upd_fn
    }

    /// The update applied to every metric when a version is finished.
    pub closed spec fn spec_between_backups(&self) -> MetricUpdate {
        self.between_backups_upd_fn
    }

    /// The rule that drops entries when a version is finished.
    pub closed spec fn spec_drop_rule(&self) -> DropRule {
        self.drop_or_not_fn
    }

    /// Creates a tier policy.
    pub fn new(
        default_metric: Metric,
        after_use_upd_fn: MetricUpdate,
        between_backups_upd_fn: MetricUpdate,
        drop_or_not_fn: DropRule,
    ) -> (r: Self)
        ensures
            r == tier_policy(default_metric, after_use_upd_fn, between_backups_upd_fn, drop_or_not_fn),
            r.spec_default_metric() == default_metric,
            r.spec_after_use() == after_use_upd_fn,
            r.spec_between_backups() == between_backups_upd_fn,
            r.spec_drop_rule() == drop_or_not_fn,
    {
        LifecycleTierConfig { default_metric, after_use_upd_fn, between_backups_upd_fn, drop_or_not_fn }
    }
}

/// A policy built from its parts gives back those parts: its default
/// metric, its updates and its drop rule.
pub broadcast proof fn lemma_tier_policy_parts(
    default_metric: Metric,
    after_use_upd_fn: MetricUpdate,
    between_backups_upd_fn: MetricUpdate,
    drop_or_not_fn: DropRule,
)
    ensures
        #![trigger tier_policy(default_metric, after_use_upd_fn, between_backups_upd_fn, drop_or_not_fn)]
        tier_policy(default_metric, after_use_upd_fn, between_backups_upd_fn, drop_or_not_fn).spec_default_metric()
            == default_metric,
        tier_policy(default_metric, after_use_upd_fn, between_backups_upd_fn, drop_or_not_fn).spec_after_use()
            == after_use_upd_fn,
        tier_policy(default_metric, after_use_upd_fn, between_backups_upd_fn, drop_or_not_fn).spec_between_backups()
            == between_backups_upd_fn,
        tier_policy(default_metric, after_use_upd_fn, between_backups_upd_fn, drop_or_not_fn).spec_drop_rule()
            == drop_or_not_fn,
{
}

/// The tier that never ages: metric 0, never updated, never dropped.
pub open spec fn permanent_tier() -> LifecycleTierConfig {
    tier_policy(0, MetricUpdate::Zero, MetricUpdate::Zero, DropRule::Never)
}

/// A tier whose entries live `lifetime` versions past their last use.
pub open spec fn aging_tier(lifetime: Metric) -> LifecycleTierConfig {
    tier_policy(lifetime, MetricUpdate::Keep, MetricUpdate::Decrement, DropRule::WhenZero)
}

/// The metric after `versions` updates by `update`, starting from `m`.
pub open spec fn after_versions(update: MetricUpdate, m: Metric, versions: nat) -> Metric
    decreases versions,
{
    if versions == 0 {
        m
    } else {
        update.spec_apply(after_versions(update, m, (versions - 1) as nat))
    }
}

/// An entry of an aging tier with lifetime `lifetime > 0` that is not used
/// again survives `lifetime - 1` finished versions and is dropped at the
/// end of version `lifetime`.
pub proof fn lemma_aging_lifetime(lifetime: Metric, versions: nat)
    requires
        0 < versions <= lifetime,
    ensures
        after_versions(aging_tier(lifetime).spec_between_backups(), lifetime, versions) == lifetime - versions,
        aging_tier(lifetime).spec_drop_rule().spec_drops(
            after_versions(aging_tier(lifetime).spec_between_backups(), lifetime, versions),
        ) <==> versions == lifetime,
    decreases versions,
{
    let update = aging_tier(lifetime).spec_between_backups();
    assert(update == MetricUpdate::Decrement);
    assert(aging_tier(lifetime).spec_drop_rule() == DropRule::WhenZero);
    if versions > 1 {
        lemma_aging_lifetime(lifetime, (versions - 1) as nat);
    } else {
        assert(after_versions(update, lifetime, 0) == lifetime);
    }
    assert(after_versions(update, lifetime, versions) == update.spec_apply(
        after_versions(update, lifetime, (versions - 1) as nat),
    ));
}

/// An entry of the permanent tier is never dropped.
pub proof fn lemma_permanent_never_dropped(m: Metric, versions: nat)
    ensures
        !permanent_tier().spec_drop_rule().spec_drops(
            after_versions(permanent_tier().spec_between_backups(), m, versions),
        ),
{
}

/// Lifecycle policies for `N` tiers.
pub struct LifecycleManager<const N: usize> {
    configs: [LifecycleTierConfig; N],
}

impl<const N: usize> LifecycleManager<N> {
    /// The policy of each tier.
    pub closed spec fn configs(&self) -> Seq<LifecycleTierConfig> {
        self.configs@
    }

    /// Creates a manager with one policy per tier.
    pub fn new(configs: [LifecycleTierConfig; N]) -> (r: Self)
        ensures
            r.configs() == configs@,
    {
        LifecycleManager { configs }
    }

    /// Returns the metric new entries of tier `tier_id` start with.
    pub fn default_tier_metric(&self, tier_id: TierID) -> (r: Metric)
        requires
            (tier_id as int) < N,
        ensures
            r == self.configs()[tier_id as int].spec_default_metric(),
    {
        self.configs[tier_id as usize].default_metric
    }

    /// Returns the update applied to an entry of tier `tier_id` that a
    /// lookup returns.
    pub fn tier_after_use_upd_fn(&self, tier_id: TierID) -> (r: MetricUpdate)
        requires
            (tier_id as int) < N,
        ensures
            r == self.configs()[tier_id as int].spec_after_use(),
    {
        self.configs[tier_id as usize].after_use_upd_fn
    }

    /// Returns the update applied to the metrics of tier `tier_id` between
    /// versions.
    pub fn tier_between_backups_upd_fn(&self, tier_id: TierID) -> (r: MetricUpdate)
        requires
            (tier_id as int) < N,
        ensures
            r == self.configs()[tier_id as int].spec_between_backups(),
    {
        self.configs[tier_id as usize].between_backups_upd_fn
    }

    /// Returns the rule that drops entries of tier `tier_id`.
    pub fn tier_drop_or_not_fn(&self, tier_id: TierID) -> (r: DropRule)
        requires
            (tier_id as int) < N,
        ensures
            r == self.configs()[tier_id as int].spec_drop_rule(),
    {
        self.configs[tier_id as usize].drop_or_not_fn
    }
}

impl LifecycleManager<1> {
    /// One permanent tier.
    pub fn default_configs() -> (r: [LifecycleTierConfig; 1])
        ensures
            r@ == seq![permanent_tier()],
    {
        let r = [LifecycleTierConfig::new(0, MetricUpdate::Zero, MetricUpdate::Zero, DropRule::Never)];
        proof {
            assert(r@ =~= seq![permanent_tier()]);
        }
        r
    }
}

impl LifecycleManager<2> {
    /// A permanent tier, then a tier living 6 versions past its last use.
    pub fn default_configs() -> (r: [LifecycleTierConfig; 2])
        ensures
            r@ == seq![permanent_tier(), aging_tier(6)],
    {
        let r = [
            LifecycleTierConfig::new(0, MetricUpdate::Zero, MetricUpdate::Zero, DropRule::Never),
            LifecycleTierConfig::new(6, MetricUpdate::Keep, MetricUpdate::Decrement, DropRule::WhenZero),
        ];
        proof {
            assert(r@ =~= seq![permanent_tier(), aging_tier(6)]);
        }
        r
    }
}

impl LifecycleManager<3> {
    /// A permanent tier, then tiers living 6 and 3 versions.
    pub fn default_configs() -> (r: [LifecycleTierConfig; 3])
        ensures
            r@ == seq![permanent_tier(), aging_tier(6), aging_tier(3)],
    {
        let r = [
            LifecycleTierConfig::new(0, MetricUpdate::Zero, MetricUpdate::Zero, DropRule::Never),
            LifecycleTierConfig::new(6, MetricUpdate::Keep, MetricUpdate::Decrement, DropRule::WhenZero),
            LifecycleTierConfig::new(3, MetricUpdate::Keep, MetricUpdate::Decrement, DropRule::WhenZero),
        ];
        proof {
            assert(r@ =~= seq![permanent_tier(), aging_tier(6), aging_tier(3)]);
        }
        r
    }
}

impl LifecycleManager<4> {
    /// A permanent tier, then tiers living 6, 3 and 1 versions.
    pub fn default_configs() -> (r: [LifecycleTierConfig; 4])
        ensures
            r@ == seq![permanent_tier(), aging_tier(6), aging_tier(3), aging_tier(1)],
    {
        let r = [
            LifecycleTierConfig::new(0, MetricUpdate::Zero, MetricUpdate::Zero, DropRule::Never),
            LifecycleTierConfig::new(6, MetricUpdate::Keep, MetricUpdate::Decrement, DropRule::WhenZero),
            LifecycleTierConfig::new(3, MetricUpdate::Keep, MetricUpdate::Decrement, DropRule::WhenZero),
            LifecycleTierConfig::new(1, MetricUpdate::Keep, MetricUpdate::Decrement, DropRule::WhenZero),
        ];
        proof {
            assert(r@ =~= seq![permanent_tier(), aging_tier(6), aging_tier(3), aging_tier(1)]);
        }
        r
    }
}

impl LifecycleManager<5> {
    /// A permanent tier, tiers living 6, 3 and 1 versions, and a last
    /// permanent tier.
    pub fn default_configs() -> (r: [LifecycleTierConfig; 5])
        ensures
            r@ == seq![permanent_tier(), aging_tier(6), aging_tier(3), aging_tier(1), permanent_tier()],
    {
        let r = [
            LifecycleTierConfig::new(0, MetricUpdate::Zero, MetricUpdate::Zero, DropRule::Never),
            LifecycleTierConfig::new(6, MetricUpdate::Keep, MetricUpdate::Decrement, DropRule::WhenZero),
            LifecycleTierConfig::new(3, MetricUpdate::Keep, MetricUpdate::Decrement, DropRule::WhenZero),
            LifecycleTierConfig::new(1, MetricUpdate::Keep, MetricUpdate::Decrement, DropRule::WhenZero),
            LifecycleTierConfig::new(0, MetricUpdate::Zero, MetricUpdate::Zero, DropRule::Never),
        ];
        proof {
            assert(r@ =~= seq![permanent_tier(), aging_tier(6), aging_tier(3), aging_tier(1), permanent_tier()]);
        }
        r
    }
}

impl Default for LifecycleManager<1> {
    fn default() -> (r: Self)
        ensures
            r.configs() == seq![permanent_tier()],
    {
        Self::new(Self::default_configs())
    }
}

impl Default for LifecycleManager<3> {
    fn default() -> (r: Self)
        ensures
            r.configs() == seq![permanent_tier(), aging_tier(6), aging_tier(3)],
    {
        Self::new(Self::default_configs())
    }
}

} // verus!
