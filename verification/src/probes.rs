//! Probes that track which document features have been tested.
//!
//! A `SpaceProbe` keeps a `SpaceMap` of `negative-space-testing` in which every
//! standard feature label starts out forbidden (untested) and each tested
//! feature is occupied.

use vstd::prelude::*;
use crate::feature::{DocumentFeature, FEATURE_COUNT, label_of, feature_at, str_eq};
use crate::feature_space::strings_view;
use negative_space_testing::SpaceMap;

verus! {

/// Declares the outside type `negative_space_testing::SpaceMap` to Verus, as an
/// opaque type.
#[verifier::external_type_specification]
#[verifier::external_body]
#[verifier::reject_recursive_types(K)]
#[verifier::reject_recursive_types(V)]
pub struct ExSpaceMap<K, V>(negative_space_testing::SpaceMap<K, V>);

/// The occupied regions of a `SpaceMap`: each key with its value.
pub uninterp spec fn occupied_regions(m: SpaceMap<String, bool>) -> Map<Seq<char>, bool>;

/// The forbidden keys of a `SpaceMap`.
pub uninterp spec fn forbidden_keys(m: SpaceMap<String, bool>) -> Set<Seq<char>>;

/// Calls `SpaceMap::new`, which makes a map with no occupied region and no
/// forbidden key.
#[verifier::external_body]
fn new_space_map() -> (m: SpaceMap<String, bool>)
    ensures
        occupied_regions(m).dom() == Set::<Seq<char>>::empty(),
        forbidden_keys(m) == Set::<Seq<char>>::empty(),
{
    SpaceMap::new()
}

/// Calls `SpaceMap::forbid`, which inserts the key into the forbidden keys.
#[verifier::external_body]
fn forbid_key(m: &mut SpaceMap<String, bool>, key: String)
    ensures
        forbidden_keys(*final(m)) == forbidden_keys(*old(m)).insert(key@),
        occupied_regions(*final(m)) == occupied_regions(*old(m)),
{
    m.forbid(key);
}

/// Calls `SpaceMap::occupy`, which inserts the key with its value into the
/// occupied regions, replacing a value the key had.
#[verifier::external_body]
fn occupy_key(m: &mut SpaceMap<String, bool>, key: String, value: bool)
    ensures
        occupied_regions(*final(m)) == occupied_regions(*old(m)).insert(key@, value),
        forbidden_keys(*final(m)) == forbidden_keys(*old(m)),
{
    m.occupy(key, value);
}

/// The labels of all features, in canonical order.
pub open spec fn standard_labels() -> Seq<Seq<char>> {
    Seq::new(11, |i: int| label_of(feature_at(i)))
}

/// Tracks which document features have been tested.
#[derive(Debug)]
pub struct SpaceProbe {
    tested: Vec<String>,
    forbidden: Vec<String>,
    map: SpaceMap<String, bool>,
}

impl SpaceProbe {
    /// The features that started out untested, in order.
    pub closed spec fn forbidden_labels(&self) -> Seq<Seq<char>> {
        strings_view(self.forbidden@)
    }

    /// The features tested so far, each once, in the order first tested.
    pub closed spec fn tested_labels(&self) -> Seq<Seq<char>> {
        strings_view(self.tested@)
    }

    /// The map holds the forbidden labels as its forbidden keys and every
    /// tested label, and only those, as an occupied region marked `true`.
    pub closed spec fn wf(&self) -> bool {
        &&& forbidden_keys(self.map) == self.forbidden_labels().to_set()
        &&& occupied_regions(self.map).dom() == self.tested_labels().to_set()
        &&& forall|k: Seq<char>| #[trigger] occupied_regions(self.map).dom().contains(k) ==> occupied_regions(self.map)[k]
        &&& self.tested_labels().no_duplicates()
    }

    /// The map of occupied and forbidden regions.
    pub closed spec fn space(&self) -> SpaceMap<String, bool> {
        self.map
    }

    /// What the map of a well-formed probe holds: its forbidden keys are the
    /// forbidden labels, its occupied regions are the tested labels, each
    /// marked `true`, and no label is tested twice.
    pub proof fn lemma_space(&self)
        requires
            self.wf(),
        ensures
            forbidden_keys(self.space()) == self.forbidden_labels().to_set(),
            occupied_regions(self.space()).dom() == self.tested_labels().to_set(),
            forall|k: Seq<char>| #[trigger] occupied_regions(self.space()).dom().contains(k) ==> occupied_regions(
                self.space(),
            )[k],
            self.tested_labels().no_duplicates(),
    {
    }

    /// Create a probe with every standard feature forbidden (untested).
    pub fn new() -> (p: Self)
        ensures
            p.wf(),
            p.forbidden_labels() == standard_labels(),
            p.tested_labels() == Seq::<Seq<char>>::empty(),
    {
        let mut map = new_space_map();
        let mut forbidden: Vec<String> = Vec::new();
        let mut i: usize = 0;
        while i < FEATURE_COUNT
            invariant
                i <= FEATURE_COUNT,
                strings_view(forbidden@) == standard_labels().take(i as int),
                forbidden_keys(map) == strings_view(forbidden@).to_set(),
                occupied_regions(map).dom() == Set::<Seq<char>>::empty(),
            decreases FEATURE_COUNT - i,
        {
            let label = DocumentFeature::from_index(i).label();
            forbid_key(&mut map, label.to_owned());
            let ghost before = forbidden@;
            forbidden.push(label.to_owned());
            proof {
                assert(strings_view(forbidden@) =~= strings_view(before).push(label@));
                assert(standard_labels().take(i + 1) =~= standard_labels().take(i as int).push(label@));
                assert(strings_view(forbidden@) =~= standard_labels().take(i + 1));
                assert(strings_view(forbidden@) =~= strings_view(forbidden@).drop_last().push(label@));
                broadcast use vstd::seq_lib::group_seq_properties;
                assert(strings_view(forbidden@).to_set() =~= strings_view(forbidden@).drop_last().to_set().insert(label@));
            }
            i += 1;
        }
        let p = SpaceProbe { tested: Vec::new(), forbidden, map };
        proof {
            assert(standard_labels().take(11) =~= standard_labels());
            assert(p.tested_labels() =~= Seq::<Seq<char>>::empty());
            assert(p.tested_labels().to_set() =~= Set::<Seq<char>>::empty());
        }
        p
    }

    /// Mark a feature as tested.
    pub fn test_feature(&mut self, feature: &str)
        requires
            old(self).wf(),
        ensures
            final(self).wf(),
            final(self).forbidden_labels() == old(self).forbidden_labels(),
            final(self).tested_labels() == if old(self).tested_labels().contains(feature@) {
                old(self).tested_labels()
            } else {
                old(self).tested_labels().push(feature@)
            },
    {
        let ghost before = self.tested_labels();
        occupy_key(&mut self.map, feature.to_owned(), true);
        let mut found = false;
        let mut i: usize = 0;
        while i < self.tested.len()
            invariant
                i <= self.tested@.len(),
                before == strings_view(self.tested@),
                found == exists|t: int| 0 <= t < i && #[trigger] before[t] == feature@,
            decreases self.tested@.len() - i,
        {
            if str_eq(self.tested[i].as_str(), feature) {
                found = true;
            }
            assert(before[i as int] == self.tested@[i as int]@);
            i += 1;
        }
        if !found {
            self.tested.push(feature.to_owned());
        }
        proof {
            broadcast use vstd::seq_lib::group_seq_properties;
            if found {
                let t = choose|t: int| 0 <= t < before.len() && #[trigger] before[t] == feature@;
                assert(before.contains(feature@));
                assert(self.tested_labels() == before);
                assert(occupied_regions(self.map).dom() =~= before.to_set());
            } else {
                assert(!before.contains(feature@));
                assert(self.tested_labels() =~= before.push(feature@));
                assert(occupied_regions(self.map).dom() =~= self.tested_labels().to_set());
            }
        }
    }

    /// The forbidden features that remain untested, in order.
    pub fn untested_features(&self) -> (v: Vec<&str>)
        ensures
            v@.map_values(|s: &str| s@) == self.forbidden_labels().filter(
                |f: Seq<char>| !self.tested_labels().contains(f),
            ),
    {
        let ghost keep = |f: Seq<char>| !self.tested_labels().contains(f);
        let ghost fl = self.forbidden_labels();
        let mut v: Vec<&str> = Vec::new();
        let mut i: usize = 0;
        proof {
            reveal_with_fuel(Seq::filter, 1);
            assert(fl.take(0) =~= Seq::<Seq<char>>::empty());
            assert(v@.map_values(|s: &str| s@) =~= Seq::<Seq<char>>::empty());
        }
        while i < self.forbidden.len()
            invariant
                i <= self.forbidden@.len(),
                fl == strings_view(self.forbidden@),
                keep == (|f: Seq<char>| !self.tested_labels().contains(f)),
                v@.map_values(|s: &str| s@) == fl.take(i as int).filter(keep),
            decreases self.forbidden@.len() - i,
        {
            let name = self.forbidden[i].as_str();
            let mut seen = false;
            let mut j: usize = 0;
            while j < self.tested.len()
                invariant
                    j <= self.tested@.len(),
                    seen == exists|t: int| 0 <= t < j && #[trigger] self.tested_labels()[t] == name@,
                decreases self.tested@.len() - j,
            {
                if str_eq(self.tested[j].as_str(), name) {
                    seen = true;
                }
                assert(self.tested_labels()[j as int] == self.tested@[j as int]@);
                j += 1;
            }
            let ghost old_v = v@;
            if !seen {
                v.push(name);
            }
            proof {
                reveal_with_fuel(Seq::filter, 1);
                assert(fl.take(i + 1).drop_last() =~= fl.take(i as int));
                assert(fl.take(i + 1).last() == name@);
                if seen {
                    let t = choose|t: int| 0 <= t < self.tested@.len() && #[trigger] self.tested_labels()[t] == name@;
                    assert(self.tested_labels().contains(name@));
                } else {
                    assert(!self.tested_labels().contains(name@));
                    assert(v@.map_values(|s: &str| s@) =~= old_v.map_values(|s: &str| s@).push(name@));
                }
            }
            i += 1;
        }
        proof {
            assert(fl.take(fl.len() as int) =~= fl);
        }
        v
    }

    /// The map of tested (occupied) and untested (forbidden) features.
    pub fn space_map(&self) -> (m: &SpaceMap<String, bool>)
        ensures
            *m == self.space(),
    {
        &self.map
    }
}

impl Default for SpaceProbe {
    fn default() -> (p: Self)
        ensures
            p.wf(),
            p.forbidden_labels() == standard_labels(),
            p.tested_labels() == Seq::<Seq<char>>::empty(),
    {
        Self::new()
    }
}

} // verus!
