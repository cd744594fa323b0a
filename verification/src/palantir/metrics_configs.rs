//! The tier configurations that the metrics run compares.

use vstd::prelude::*;

verus! {

/// One configuration of the metrics run: a name, the group size of each
/// tier and, when set, the number of raw features to use in place of the
/// LCM of the group sizes.
pub struct Config {
    /// The name printed for the configuration.
    pub name: &'static str,
    /// The group size of each tier.
    pub tier_list: Vec<u32>,
    /// The number of raw features, when it is not the LCM of the group sizes.
    pub features_num_override: Option<usize>,
}

/// The configurations of the metrics run, in the order they are reported.
pub fn configs() -> (r: Vec<Config>)
    ensures
        r@.len() == 7,
        r@[0].name@ == "N1_G2"@ && r@[0].tier_list@ == seq![2u32] && r@[0].features_num_override is None,
        r@[1].name@ == "ODESS"@ && r@[1].tier_list@ == seq![6u32] && r@[1].features_num_override == Some(12usize),
        r@[2].name@ == "N2_G3-2"@ && r@[2].tier_list@ == seq![3u32, 2] && r@[2].features_num_override is None,
        r@[3].name@ == "N3_G4-3-2"@ && r@[3].tier_list@ == seq![4u32, 3, 2] && r@[3].features_num_override is None,
        r@[4].name@ == "N3_G8-4-2"@ && r@[4].tier_list@ == seq![8u32, 4, 2] && r@[4].features_num_override is None,
        r@[5].name@ == "N4_G6-4-3-2"@ && r@[5].tier_list@ == seq![6u32, 4, 3, 2]
            && r@[5].features_num_override is None,
        r@[6].name@ == "N5_G12-6-4-3-2"@ && r@[6].tier_list@ == seq![12u32, 6, 4, 3, 2]
            && r@[6].features_num_override is None,
{
    let r = vec![
        Config { name: "N1_G2", tier_list: vec![2], features_num_override: None },
        Config { name: "ODESS", tier_list: vec![6], features_num_override: Some(12) },
        Config { name: "N2_G3-2", tier_list: vec![3, 2], features_num_override: None },
        Config { name: "N3_G4-3-2", tier_list: vec![4, 3, 2], features_num_override: None },
        Config { name: "N3_G8-4-2", tier_list: vec![8, 4, 2], features_num_override: None },
        Config { name: "N4_G6-4-3-2", tier_list: vec![6, 4, 3, 2], features_num_override: None },
        Config { name: "N5_G12-6-4-3-2", tier_list: vec![12, 6, 4, 3, 2], features_num_override: None },
    ];
    proof {
        assert(r@[2].tier_list@ =~= seq![3u32, 2]);
        assert(r@[3].tier_list@ =~= seq![4u32, 3, 2]);
        assert(r@[4].tier_list@ =~= seq![8u32, 4, 2]);
        assert(r@[5].tier_list@ =~= seq![6u32, 4, 3, 2]);
        assert(r@[6].tier_list@ =~= seq![12u32, 6, 4, 3, 2]);
        assert(r@[0].tier_list@ =~= seq![2u32]);
        assert(r@[1].tier_list@ =~= seq![6u32]);
    }
    r
}

} // verus!
