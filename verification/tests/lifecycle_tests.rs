use marline::palantir::lifecycle_manager::{DropRule, LifecycleManager, LifecycleTierConfig, MetricUpdate};

#[test]
fn default_three_tier_policies() {
    let m = LifecycleManager::<3>::new(LifecycleManager::<3>::default_configs());
    assert_eq!(m.default_tier_metric(0), 0);
    assert_eq!(m.default_tier_metric(1), 6);
    assert_eq!(m.default_tier_metric(2), 3);
    assert_eq!(m.tier_after_use_upd_fn(1).apply(4), 4);
    assert_eq!(m.tier_between_backups_upd_fn(2).apply(3), 2);
    assert!(m.tier_drop_or_not_fn(2).drops(0));
    assert!(!m.tier_drop_or_not_fn(0).drops(0));
    assert_eq!(m.tier_between_backups_upd_fn(0).apply(9), 0);
}

#[test]
fn default_configs_per_tier_count() {
    assert_eq!(LifecycleManager::<1>::default_configs().len(), 1);
    assert_eq!(LifecycleManager::<2>::default_configs()[1], LifecycleTierConfig::new(6, MetricUpdate::Keep, MetricUpdate::Decrement, DropRule::WhenZero));
    assert_eq!(LifecycleManager::<4>::default_configs()[3], LifecycleTierConfig::new(1, MetricUpdate::Keep, MetricUpdate::Decrement, DropRule::WhenZero));
    assert_eq!(LifecycleManager::<5>::default_configs()[4], LifecycleTierConfig::new(0, MetricUpdate::Zero, MetricUpdate::Zero, DropRule::Never));
}

#[test]
fn default_managers() {
    let m: LifecycleManager<1> = Default::default();
    assert_eq!(m.default_tier_metric(0), 0);
    let m3: LifecycleManager<3> = Default::default();
    assert_eq!(m3.default_tier_metric(1), 6);
}

#[test]
fn decrement_wraps_at_zero() {
    assert_eq!(MetricUpdate::Decrement.apply(0), u8::MAX);
    assert_eq!(MetricUpdate::Decrement.apply(1), 0);
}

#[test]
fn aging_entry_lives_its_lifetime() {
    let cfgs = LifecycleManager::<3>::default_configs();
    let m = LifecycleManager::<3>::new(cfgs);
    let update = m.tier_between_backups_upd_fn(2);
    let rule = m.tier_drop_or_not_fn(2);
    let mut metric = m.default_tier_metric(2);
    assert_eq!(metric, 3);
    for version in 1..=3u8 {
        metric = update.apply(metric);
        assert_eq!(metric, 3 - version);
        assert_eq!(rule.drops(metric), version == 3);
    }
}

#[test]
fn permanent_entry_is_never_dropped() {
    let m = LifecycleManager::<3>::new(LifecycleManager::<3>::default_configs());
    let update = m.tier_between_backups_upd_fn(0);
    let rule = m.tier_drop_or_not_fn(0);
    let mut metric = m.default_tier_metric(0);
    for _ in 0..10 {
        metric = update.apply(metric);
        assert!(!rule.drops(metric));
    }
}
