//! Service sets and the service-activation engine.  A service set maps unit
//! names to the store path of their configuration; two generations are
//! compared by computing the stop set (units no longer wanted) and the
//! reload set (units whose store path changed).  Driving the supervisor
//! happens through the verified job bookkeeping of [`crate::systemd`].

use crate::activate::{partial_of, ActivationError, ActivationResult};
use crate::store_path::StorePath;
use crate::systemd::{ServiceManager, UnitAction};
use vstd::prelude::*;

verus! {

/// One unit's configuration: the store path its definition lives under.
/// Units are compared by store path alone: store paths are content
/// addressed, so equal paths mean equal configuration.
pub struct ServiceConfig {
    pub store_path: StorePath,
}

/// A set of services keyed by unit name.
pub struct Services {
    pub entries: Vec<(String, ServiceConfig)>,
}

pub open spec fn svc_has_key(cs: Seq<(String, ServiceConfig)>, k: Seq<char>) -> bool {
    exists|i: int| 0 <= i < cs.len() && cs[i].0@ == k
}

pub open spec fn svc_key_index(cs: Seq<(String, ServiceConfig)>, k: Seq<char>) -> int {
    choose|i: int| 0 <= i < cs.len() && cs[i].0@ == k
}

pub open spec fn svc_uniq(cs: Seq<(String, ServiceConfig)>) -> bool {
    forall|i: int, j: int| 0 <= i < j < cs.len() ==> cs[i].0@ != cs[j].0@
}

/// The map a service list denotes: unit name to store path.
pub open spec fn svc_map(cs: Seq<(String, ServiceConfig)>) -> Map<Seq<char>, Seq<char>> {
    Map::new(
        |k: Seq<char>| svc_has_key(cs, k),
        |k: Seq<char>|
            if svc_has_key(cs, k) {
                cs[svc_key_index(cs, k)].1.store_path.store_path@
            } else {
                Seq::empty()
            },
    )
}

impl View for Services {
    type V = Map<Seq<char>, Seq<char>>;

    open spec fn view(&self) -> Map<Seq<char>, Seq<char>> {
        svc_map(self.entries@)
    }
}

pub proof fn lemma_svc_key_index(cs: Seq<(String, ServiceConfig)>, i: int)
    requires
        svc_uniq(cs),
        0 <= i < cs.len(),
    ensures
        svc_has_key(cs, cs[i].0@),
        svc_key_index(cs, cs[i].0@) == i,
{
    let k = cs[i].0@;
    assert(svc_has_key(cs, k));
    let w = svc_key_index(cs, k);
    assert(0 <= w < cs.len() && cs[w].0@ == k);
    if w < i {
        assert(cs[w].0@ != cs[i].0@);
    } else if i < w {
        assert(cs[i].0@ != cs[w].0@);
    }
}

impl Services {
    /// Unit names are unique.
    pub open spec fn wf(self) -> bool {
        svc_uniq(self.entries@)
    }

    /// The empty service set.
    pub fn new() -> (r: Services)
        ensures
            r.wf(),
            r@ == Map::<Seq<char>, Seq<char>>::empty(),
            r.entries@.len() == 0,
    {
        let r = Services { entries: Vec::new() };
        proof {
            assert(r@.dom() =~= Set::<Seq<char>>::empty());
            assert(r@ =~= Map::<Seq<char>, Seq<char>>::empty());
        }
        r
    }

    /// How many units the set holds.
    pub fn len(&self) -> (r: usize)
        ensures
            r == self.entries@.len(),
    {
        self.entries.len()
    }

    /// Whether the set holds no unit.
    #[verifier::loop_isolation(false)]
    pub fn is_empty(&self) -> (r: bool)
        ensures
            r <==> self@ == Map::<Seq<char>, Seq<char>>::empty(),
            r <==> self.entries@.len() == 0,
    {
        let r = self.entries.len() == 0;
        proof {
            if self.entries@.len() == 0 {
                assert(self@.dom() =~= Set::<Seq<char>>::empty());
                assert(self@ =~= Map::<Seq<char>, Seq<char>>::empty());
            } else {
                assert(svc_has_key(self.entries@, self.entries@[0].0@));
                assert(self@.contains_key(self.entries@[0].0@));
                if self@ == Map::<Seq<char>, Seq<char>>::empty() {
                    assert(!self@.contains_key(self.entries@[0].0@));
                }
            }
        }
        r
    }

    /// Whether a unit of this name is in the set.
    #[verifier::loop_isolation(false)]
    pub fn contains(&self, name: &String) -> (r: bool)
        ensures
            r == self@.contains_key(name@),
    {
        let mut i: usize = 0;
        while i < self.entries.len()
            invariant
                0 <= i <= self.entries@.len(),
                forall|m: int| 0 <= m < i ==> (#[trigger] self.entries@[m]).0@ != name@,
            decreases self.entries@.len() - i,
        {
            if self.entries[i].0 == *name {
                proof {
                    assert(svc_has_key(self.entries@, name@));
                }
                return true;
            }
            i += 1;
        }
        proof {
            if svc_has_key(self.entries@, name@) {
                let w = choose|w: int|
                    0 <= w < self.entries@.len() && (#[trigger] self.entries@[w]).0@ == name@;
                assert(self.entries@[w].0@ == name@);
            }
        }
        false
    }

    /// The store path recorded for a unit, if the unit is in the set.
    #[verifier::loop_isolation(false)]
    pub fn get(&self, name: &String) -> (r: Option<&ServiceConfig>)
        requires
            self.wf(),
        ensures
            r is Some <==> self@.contains_key(name@),
            r matches Some(c) ==> c.store_path.store_path@ == self@[name@],
    {
        let mut i: usize = 0;
        while i < self.entries.len()
            invariant
                0 <= i <= self.entries@.len(),
                forall|m: int| 0 <= m < i ==> (#[trigger] self.entries@[m]).0@ != name@,
            decreases self.entries@.len() - i,
        {
            if self.entries[i].0 == *name {
                proof {
                    lemma_svc_key_index(self.entries@, i as int);
                }
                return Some(&self.entries[i].1);
            }
            i += 1;
        }
        proof {
            if svc_has_key(self.entries@, name@) {
                let w = choose|w: int|
                    0 <= w < self.entries@.len() && (#[trigger] self.entries@[w]).0@ == name@;
                assert(self.entries@[w].0@ == name@);
            }
        }
        None
    }

    /// Add or overwrite a unit's record.
    #[verifier::loop_isolation(false)]
    pub fn insert(self, name: String, config: ServiceConfig) -> (r: Services)
        requires
            self.wf(),
        ensures
            r.wf(),
            r@ == self@.insert(name@, config.store_path.store_path@),
    {
        let ghost os = self.entries@;
        let ghost k = name@;
        let Services { entries } = self;
        let mut entries = entries;
        let mut i: usize = 0;
        let mut found: bool = false;
        while i < entries.len() && !found
            invariant
                0 <= i <= entries@.len(),
                entries@ == os,
                found ==> i < entries@.len() && entries@[i as int].0@ == k,
                !found ==> forall|m: int| 0 <= m < i ==> (#[trigger] entries@[m]).0@ != k,
            decreases entries@.len() - i + (if found {
                0int
            } else {
                1int
            }),
        {
            if entries[i].0 == name {
                found = true;
            } else {
                i += 1;
            }
        }
        if found {
            let _old = entries.remove(i);
            entries.insert(i, (name, config));
            let r = Services { entries };
            proof {
                let ns = r.entries@;
                assert(ns =~= os.update(i as int, ns[i as int]));
                assert(ns[i as int].0@ == k);
                assert forall|m: int| 0 <= m < ns.len() implies ns[m].0@ == os[m].0@ by {}
                assert(svc_uniq(ns));
                assert(r@.dom() =~= self@.insert(k, config.store_path.store_path@).dom()) by {
                    assert forall|k2: Seq<char>| svc_has_key(ns, k2) == svc_has_key(os, k2) by {
                        if svc_has_key(ns, k2) {
                            let w = choose|w: int| 0 <= w < ns.len() && (#[trigger] ns[w]).0@ == k2;
                            assert(os[w].0@ == k2);
                        }
                        if svc_has_key(os, k2) {
                            let w = choose|w: int| 0 <= w < os.len() && (#[trigger] os[w]).0@ == k2;
                            assert(ns[w].0@ == k2);
                        }
                    }
                    assert(svc_has_key(os, k));
                }
                assert forall|k2: Seq<char>| #[trigger]
                    r@.contains_key(k2) implies r@[k2] == self@.insert(
                    k,
                    config.store_path.store_path@,
                )[k2] by {
                    let w = svc_key_index(ns, k2);
                    assert(0 <= w < ns.len() && ns[w].0@ == k2);
                    if k2 == k {
                        lemma_svc_key_index(ns, i as int);
                    } else {
                        assert(w != i as int);
                        lemma_svc_key_index(ns, w);
                        lemma_svc_key_index(os, w);
                        assert(ns[w] == os[w]);
                    }
                }
                assert(r@ =~= self@.insert(k, config.store_path.store_path@));
            }
            r
        } else {
            entries.push((name, config));
            let r = Services { entries };
            proof {
                let ns = r.entries@;
                assert(ns =~= os.push(ns[ns.len() - 1]));
                assert(ns[ns.len() - 1].0@ == k);
                assert(!svc_has_key(os, k));
                assert forall|a: int, b: int| 0 <= a < b < ns.len() implies ns[a].0@ != ns[b].0@ by {
                    if b == os.len() {
                        assert(ns[a] == os[a]);
                    } else {
                        assert(ns[a] == os[a] && ns[b] == os[b]);
                    }
                }
                assert(r@.dom() =~= self@.insert(k, config.store_path.store_path@).dom()) by {
                    assert forall|k2: Seq<char>| svc_has_key(ns, k2) == (svc_has_key(os, k2) || k2
                        == k) by {
                        if svc_has_key(ns, k2) {
                            let w = choose|w: int| 0 <= w < ns.len() && (#[trigger] ns[w]).0@ == k2;
                            if w < os.len() {
                                assert(os[w].0@ == k2);
                            }
                        }
                        if svc_has_key(os, k2) {
                            let w = choose|w: int| 0 <= w < os.len() && (#[trigger] os[w]).0@ == k2;
                            assert(ns[w].0@ == k2);
                        }
                        if k2 == k {
                            assert(ns[ns.len() - 1].0@ == k2);
                        }
                    }
                }
                assert forall|k2: Seq<char>| #[trigger]
                    r@.contains_key(k2) implies r@[k2] == self@.insert(
                    k,
                    config.store_path.store_path@,
                )[k2] by {
                    let w = svc_key_index(ns, k2);
                    assert(0 <= w < ns.len() && ns[w].0@ == k2);
                    if k2 == k {
                        lemma_svc_key_index(ns, os.len() as int);
                    } else {
                        assert(w != os.len());
                        lemma_svc_key_index(ns, w);
                        lemma_svc_key_index(os, w);
                        assert(ns[w] == os[w]);
                    }
                }
                assert(r@ =~= self@.insert(k, config.store_path.store_path@));
            }
            r
        }
    }

    /// A copy of one unit's configuration.
    fn clone_config(c: &ServiceConfig) -> (r: ServiceConfig)
        ensures
            r.store_path.store_path@ == c.store_path.store_path@,
    {
        ServiceConfig { store_path: StorePath { store_path: c.store_path.store_path.clone() } }
    }

    /// The units of `self` that the new generation `new` no longer wants:
    /// the stop set.
    #[verifier::loop_isolation(false)]
    pub fn relative_complement(&self, new: &Services) -> (r: Services)
        requires
            self.wf(),
            new.wf(),
        ensures
            r.wf(),
            r@ == self@.remove_keys(new@.dom()),
    {
        let ghost os = self.entries@;
        let ghost goal = self@.remove_keys(new@.dom());
        let mut out: Vec<(String, ServiceConfig)> = Vec::new();
        let mut i: usize = 0;
        while i < self.entries.len()
            invariant
                0 <= i <= os.len(),
                svc_uniq(out@),
                forall|w: int|
                    0 <= w < out@.len() ==> exists|v: int|
                        0 <= v < i && (#[trigger] out@[w]).0@ == os[v].0@,
                forall|k2: Seq<char>|
                    #![auto]
                    svc_has_key(out@, k2) == (svc_has_key(os.take(i as int), k2)
                        && goal.contains_key(k2)),
                forall|k2: Seq<char>| #[trigger]
                    svc_has_key(out@, k2) ==> svc_map(out@)[k2] == goal[k2],
            decreases os.len() - i,
        {
            let ghost old_out = out@;
            proof {
                lemma_svc_key_index(os, i as int);
                assert(!svc_has_key(old_out, os[i as int].0@)) by {
                    if svc_has_key(old_out, os[i as int].0@) {
                        let w = choose|w: int|
                            0 <= w < old_out.len() && (#[trigger] old_out[w]).0@ == os[i as int].0@;
                        let v = choose|v: int|
                            0 <= v < i && (#[trigger] old_out[w]).0@ == os[v].0@;
                        assert(os[v].0@ == os[i as int].0@);
                    }
                }
            }
            if !new.contains(&self.entries[i].0) {
                out.push(
                    (self.entries[i].0.clone(), Self::clone_config(&self.entries[i].1)),
                );
                proof {
                    let ns = out@;
                    let k = os[i as int].0@;
                    assert(ns =~= old_out.push(ns[ns.len() - 1]));
                    assert(ns[ns.len() - 1].0@ == k);
                    assert forall|a: int, b: int| 0 <= a < b < ns.len() implies ns[a].0@
                        != ns[b].0@ by {
                        if b == ns.len() - 1 {
                            assert(ns[a] == old_out[a]);
                        } else {
                            assert(ns[a] == old_out[a] && ns[b] == old_out[b]);
                        }
                    }
                    assert(goal.contains_key(k));
                    assert(goal[k] == self@[k]);
                    assert(self@[k] == os[i as int].1.store_path.store_path@);
                    assert forall|k2: Seq<char>|
                        #![auto]
                        svc_has_key(ns, k2) == (svc_has_key(os.take(i as int + 1), k2)
                            && goal.contains_key(k2)) by {
                        if svc_has_key(ns, k2) {
                            let w = choose|w: int| 0 <= w < ns.len() && (#[trigger] ns[w]).0@ == k2;
                            if w < ns.len() - 1 {
                                let v = svc_key_index(os.take(i as int), k2);
                                assert(svc_has_key(old_out, k2));
                                assert(0 <= v < i && os.take(i as int)[v].0@ == k2);
                                assert(os.take(i as int + 1)[v].0@ == k2);
                            } else {
                                assert(os.take(i as int + 1)[i as int].0@ == k2);
                            }
                        }
                        if svc_has_key(os.take(i as int + 1), k2) && goal.contains_key(k2) {
                            let v = choose|v: int|
                                0 <= v < i + 1 && (#[trigger] os.take(i as int + 1)[v]).0@ == k2;
                            if v < i {
                                assert(os.take(i as int)[v].0@ == k2);
                                assert(svc_has_key(old_out, k2));
                                let w = svc_key_index(old_out, k2);
                                assert(ns[w].0@ == k2);
                            } else {
                                assert(k2 == k);
                            }
                        }
                    }
                    assert forall|k2: Seq<char>| #[trigger]
                        svc_has_key(ns, k2) implies svc_map(ns)[k2] == goal[k2] by {
                        let w = svc_key_index(ns, k2);
                        assert(0 <= w < ns.len() && ns[w].0@ == k2);
                        if k2 == k {
                            lemma_svc_key_index(ns, ns.len() - 1);
                            assert(svc_map(ns)[k2] == ns[ns.len() - 1].1.store_path.store_path@);
                        } else {
                            assert(w != ns.len() - 1);
                            lemma_svc_key_index(ns, w);
                            lemma_svc_key_index(old_out, w);
                            assert(ns[w] == old_out[w]);
                            assert(svc_map(ns)[k2] == svc_map(old_out)[k2]);
                        }
                    }
                }
            } else {
                proof {
                    let k = os[i as int].0@;
                    assert(!goal.contains_key(k));
                    assert forall|k2: Seq<char>|
                        #![auto]
                        svc_has_key(out@, k2) == (svc_has_key(os.take(i as int + 1), k2)
                            && goal.contains_key(k2)) by {
                        if svc_has_key(os.take(i as int + 1), k2) && goal.contains_key(k2) {
                            let v = choose|v: int|
                                0 <= v < i + 1 && (#[trigger] os.take(i as int + 1)[v]).0@ == k2;
                            if v < i {
                                assert(os.take(i as int)[v].0@ == k2);
                            } else {
                                assert(k2 == k);
                            }
                        }
                        if svc_has_key(out@, k2) {
                            let v = svc_key_index(os.take(i as int), k2);
                            assert(0 <= v < i && os.take(i as int)[v].0@ == k2);
                            assert(os.take(i as int + 1)[v].0@ == k2);
                        }
                    }
                }
            }
            i += 1;
        }
        let r = Services { entries: out };
        proof {
            assert(os.take(os.len() as int) =~= os);
            assert(r@.dom() =~= goal.dom()) by {
                assert forall|k2: Seq<char>|
                    #![auto]
                    r@.contains_key(k2) <==> goal.contains_key(k2) by {
                    if goal.contains_key(k2) {
                        assert(self@.contains_key(k2));
                        assert(svc_has_key(os, k2));
                    }
                }
            }
            assert(r@ =~= goal);
        }
        r
    }

    /// The units present in both generations whose store path changed: the
    /// reload set.
    #[verifier::loop_isolation(false)]
    pub fn changed_intersection(&self, old: &Services) -> (r: Services)
        requires
            self.wf(),
            old.wf(),
        ensures
            r.wf(),
            r@ == Map::<Seq<char>, Seq<char>>::new(
                |k: Seq<char>| self@.contains_key(k) && old@.contains_key(k) && self@[k] != old@[k],
                |k: Seq<char>| self@[k],
            ),
    {
        let ghost os = self.entries@;
        let ghost goal = Map::<Seq<char>, Seq<char>>::new(
            |k: Seq<char>| self@.contains_key(k) && old@.contains_key(k) && self@[k] != old@[k],
            |k: Seq<char>| self@[k],
        );
        let mut out: Vec<(String, ServiceConfig)> = Vec::new();
        let mut i: usize = 0;
        while i < self.entries.len()
            invariant
                0 <= i <= os.len(),
                svc_uniq(out@),
                forall|w: int|
                    0 <= w < out@.len() ==> exists|v: int|
                        0 <= v < i && (#[trigger] out@[w]).0@ == os[v].0@,
                forall|k2: Seq<char>|
                    #![auto]
                    svc_has_key(out@, k2) == (svc_has_key(os.take(i as int), k2)
                        && goal.contains_key(k2)),
                forall|k2: Seq<char>| #[trigger]
                    svc_has_key(out@, k2) ==> svc_map(out@)[k2] == goal[k2],
            decreases os.len() - i,
        {
            let ghost old_out = out@;
            proof {
                lemma_svc_key_index(os, i as int);
                assert(!svc_has_key(old_out, os[i as int].0@)) by {
                    if svc_has_key(old_out, os[i as int].0@) {
                        let w = choose|w: int|
                            0 <= w < old_out.len() && (#[trigger] old_out[w]).0@ == os[i as int].0@;
                        let v = choose|v: int|
                            0 <= v < i && (#[trigger] old_out[w]).0@ == os[v].0@;
                        assert(os[v].0@ == os[i as int].0@);
                    }
                }
            }
            let keep = match old.get(&self.entries[i].0) {
                Some(c) => c.store_path.store_path != self.entries[i].1.store_path.store_path,
                None => false,
            };
            proof {
                assert(keep == goal.contains_key(os[i as int].0@));
            }
            if keep {
                out.push(
                    (self.entries[i].0.clone(), Self::clone_config(&self.entries[i].1)),
                );
                proof {
                    let ns = out@;
                    let k = os[i as int].0@;
                    assert(ns =~= old_out.push(ns[ns.len() - 1]));
                    assert(ns[ns.len() - 1].0@ == k);
                    assert forall|a: int, b: int| 0 <= a < b < ns.len() implies ns[a].0@
                        != ns[b].0@ by {
                        if b == ns.len() - 1 {
                            assert(ns[a] == old_out[a]);
                        } else {
                            assert(ns[a] == old_out[a] && ns[b] == old_out[b]);
                        }
                    }
                    assert(goal.contains_key(k));
                    assert(goal[k] == self@[k]);
                    assert(self@[k] == os[i as int].1.store_path.store_path@);
                    assert forall|k2: Seq<char>|
                        #![auto]
                        svc_has_key(ns, k2) == (svc_has_key(os.take(i as int + 1), k2)
                            && goal.contains_key(k2)) by {
                        if svc_has_key(ns, k2) {
                            let w = choose|w: int| 0 <= w < ns.len() && (#[trigger] ns[w]).0@ == k2;
                            if w < ns.len() - 1 {
                                let v = svc_key_index(os.take(i as int), k2);
                                assert(svc_has_key(old_out, k2));
                                assert(0 <= v < i && os.take(i as int)[v].0@ == k2);
                                assert(os.take(i as int + 1)[v].0@ == k2);
                            } else {
                                assert(os.take(i as int + 1)[i as int].0@ == k2);
                            }
                        }
                        if svc_has_key(os.take(i as int + 1), k2) && goal.contains_key(k2) {
                            let v = choose|v: int|
                                0 <= v < i + 1 && (#[trigger] os.take(i as int + 1)[v]).0@ == k2;
                            if v < i {
                                assert(os.take(i as int)[v].0@ == k2);
                                assert(svc_has_key(old_out, k2));
                                let w = svc_key_index(old_out, k2);
                                assert(ns[w].0@ == k2);
                            } else {
                                assert(k2 == k);
                            }
                        }
                    }
                    assert forall|k2: Seq<char>| #[trigger]
                        svc_has_key(ns, k2) implies svc_map(ns)[k2] == goal[k2] by {
                        let w = svc_key_index(ns, k2);
                        assert(0 <= w < ns.len() && ns[w].0@ == k2);
                        if k2 == k {
                            lemma_svc_key_index(ns, ns.len() - 1);
                            assert(svc_map(ns)[k2] == ns[ns.len() - 1].1.store_path.store_path@);
                        } else {
                            assert(w != ns.len() - 1);
                            lemma_svc_key_index(ns, w);
                            lemma_svc_key_index(old_out, w);
                            assert(ns[w] == old_out[w]);
                            assert(svc_map(ns)[k2] == svc_map(old_out)[k2]);
                        }
                    }
                }
            } else {
                proof {
                    let k = os[i as int].0@;
                    assert(!goal.contains_key(k));
                    assert forall|k2: Seq<char>|
                        #![auto]
                        svc_has_key(out@, k2) == (svc_has_key(os.take(i as int + 1), k2)
                            && goal.contains_key(k2)) by {
                        if svc_has_key(os.take(i as int + 1), k2) && goal.contains_key(k2) {
                            let v = choose|v: int|
                                0 <= v < i + 1 && (#[trigger] os.take(i as int + 1)[v]).0@ == k2;
                            if v < i {
                                assert(os.take(i as int)[v].0@ == k2);
                            } else {
                                assert(k2 == k);
                            }
                        }
                        if svc_has_key(out@, k2) {
                            let v = svc_key_index(os.take(i as int), k2);
                            assert(0 <= v < i && os.take(i as int)[v].0@ == k2);
                            assert(os.take(i as int + 1)[v].0@ == k2);
                        }
                    }
                }
            }
            i += 1;
        }
        let r = Services { entries: out };
        proof {
            assert(os.take(os.len() as int) =~= os);
            assert(r@.dom() =~= goal.dom()) by {
                assert forall|k2: Seq<char>|
                    #![auto]
                    r@.contains_key(k2) <==> goal.contains_key(k2) by {
                    if goal.contains_key(k2) {
                        assert(self@.contains_key(k2));
                        assert(svc_has_key(os, k2));
                    }
                }
            }
            assert(r@ =~= goal);
        }
        r
    }

    /// The unit names of the set, in order.
    #[verifier::loop_isolation(false)]
    pub fn names(&self) -> (r: Vec<String>)
        ensures
            r@.len() == self.entries@.len(),
            forall|i: int| 0 <= i < r@.len() ==> (#[trigger] r@[i])@ == self.entries@[i].0@,
    {
        let mut r: Vec<String> = Vec::new();
        let mut i: usize = 0;
        while i < self.entries.len()
            invariant
                0 <= i <= self.entries@.len(),
                r@.len() == i,
                forall|m: int| 0 <= m < i ==> (#[trigger] r@[m])@ == self.entries@[m].0@,
            decreases self.entries@.len() - i,
        {
            r.push(self.entries[i].0.clone());
            i += 1;
        }
        r
    }
}

/// The units the previous generation had and the new one no longer wants.
pub fn services_to_stop(old_services: &Services, services: &Services) -> (r: Services)
    requires
        old_services.wf(),
        services.wf(),
    ensures
        r.wf(),
        r@ == old_services@.remove_keys(services@.dom()),
{
    old_services.relative_complement(services)
}

/// The units present in both generations whose store path changed.
pub fn get_services_to_reload(services: &Services, old_services: &Services) -> (r: Services)
    requires
        services.wf(),
        old_services.wf(),
    ensures
        r.wf(),
        r@ == Map::<Seq<char>, Seq<char>>::new(
            |k: Seq<char>| services@.contains_key(k) && old_services@.contains_key(k) && services@[k]
                != old_services@[k],
            |k: Seq<char>| services@[k],
        ),
{
    services.changed_intersection(old_services)
}

/// The unit names of a service set, in order.
pub fn convert_services(services: &Services) -> (r: Vec<String>)
    ensures
        r@.len() == services.entries@.len(),
        forall|i: int| 0 <= i < r@.len() ==> (#[trigger] r@[i])@ == services.entries@[i].0@,
{
    services.names()
}

/// The unit names of a list of status records, in order.
pub fn convert_units(units: &Vec<crate::systemd::UnitStatus>) -> (r: Vec<String>)
    ensures
        r@.len() == units@.len(),
        forall|i: int| 0 <= i < r@.len() ==> (#[trigger] r@[i])@ == units@[i].name@,
{
    let mut r: Vec<String> = Vec::new();
    let mut i: usize = 0;
    while i < units.len()
        invariant
            0 <= i <= units@.len(),
            r@.len() == i,
            forall|m: int| 0 <= m < i ==> (#[trigger] r@[m])@ == units@[m].name@,
        decreases units@.len() - i,
    {
        r.push(units[i].name.clone());
        i += 1;
    }
    r
}

/// The supervisor's unit directory: under `/run` in ephemeral mode, under
/// `/etc` otherwise.
pub fn systemd_system_dir(ephemeral: bool) -> (r: String)
    ensures
        ephemeral ==> r@ == "/run/systemd/system"@,
        !ephemeral ==> r@ == "/etc/systemd/system"@,
{
    if ephemeral {
        "/run/systemd/system".to_owned()
    } else {
        "/etc/systemd/system".to_owned()
    }
}

/// What to do about the ephemeral supervisor unit directory before services
/// are activated.
#[derive(Clone, Copy, PartialEq, Eq, Structural, Debug)]
pub enum SystemdDirAction {
    /// Not in ephemeral mode: leave the directory alone.
    Nothing,
    /// A non-empty real directory stands in the way: activation must fail.
    FailNotEmpty,
    /// An empty real directory stands there: remove it, then link.
    RemoveDirThenLink,
    /// A symlink or other file stands there: unlink it, then link.
    RemoveFileThenLink,
    /// Nothing stands there: create the link.
    CreateLink,
}

/// Decide how to prepare the ephemeral supervisor unit directory, from what
/// stands at its path: it must become a symlink into the ephemeral tree, but
/// a non-empty real directory is never removed.
pub fn systemd_dir_action(
    ephemeral: bool,
    exists: bool,
    is_symlink: bool,
    is_dir: bool,
    dir_has_entries: bool,
) -> (r: SystemdDirAction)
    ensures
        !ephemeral ==> r == SystemdDirAction::Nothing,
        ephemeral && exists && !is_symlink && is_dir && dir_has_entries ==> r
            == SystemdDirAction::FailNotEmpty,
        ephemeral && exists && !is_symlink && is_dir && !dir_has_entries ==> r
            == SystemdDirAction::RemoveDirThenLink,
        ephemeral && exists && (is_symlink || !is_dir) ==> r == SystemdDirAction::RemoveFileThenLink,
        ephemeral && !exists ==> r == SystemdDirAction::CreateLink,
{
    if !ephemeral {
        SystemdDirAction::Nothing
    } else if exists && !is_symlink && is_dir && dir_has_entries {
        SystemdDirAction::FailNotEmpty
    } else if exists {
        if !is_symlink && is_dir {
            SystemdDirAction::RemoveDirThenLink
        } else {
            SystemdDirAction::RemoveFileThenLink
        }
    } else {
        SystemdDirAction::CreateLink
    }
}

/// The fixed deadline for one batch of supervisor jobs, in milliseconds.
pub const JOB_TIMEOUT_MILLIS: u64 = 30000;

/// The target that pulls in every unit of a generation on activation.
pub fn manager_target_name() -> (r: String)
    ensures
        r@ == "system-manager.target"@,
{
    "system-manager.target".to_owned()
}

/// Block until the given jobs have completed; a passed deadline is an error.
pub fn wait_for_jobs(
    manager: &ServiceManager,
    monitor: &crate::systemd::JobMonitor<'_>,
    jobs: Vec<String>,
    timeout_millis: &Option<u64>,
) -> (r: Result<(), crate::systemd::DbusError>)
    ensures
        jobs@.len() == 0 ==> r is Ok,
{
    match manager.monitor_jobs_finish(monitor, timeout_millis, jobs) {
        Ok(true) => Ok(()),
        Ok(false) => Err(
            crate::systemd::DbusError {
                message: "timeout waiting for supervisor jobs".to_owned(),
            },
        ),
        Err(e) => Err(e),
    }
}

/// Activate the service set `services` against the previous generation
/// `old_services`: stop the units no longer wanted, wait for them to drain,
/// then reload-or-restart the units whose store path changed together with
/// the always-started manager target, each batch bounded by the deadline.
/// On success the new service set is returned; on failure the error carries
/// the set activation had reached.
pub fn activate(services: Services, old_services: Services) -> (r: ActivationResult<Services>)
    requires
        services.wf(),
        old_services.wf(),
    ensures
        r matches Ok(s) ==> s == services,
        r matches Err(e) ==> partial_of(e) == old_services || partial_of(e) == services,
{
    let to_stop = services_to_stop(&old_services, &services);
    let to_reload = get_services_to_reload(&services, &old_services);

    let manager = match ServiceManager::new_session() {
        Ok(m) => m,
        Err(e) => {
            return Err(ActivationError::with_partial_result(old_services, e.message));
        },
    };
    let monitor = match manager.monitor_jobs_init() {
        Ok(m) => m,
        Err(e) => {
            return Err(ActivationError::with_partial_result(old_services, e.message));
        },
    };
    let timeout = Some(JOB_TIMEOUT_MILLIS);

    // Stop first, before the supervisor learns of the removed unit files, so
    // that it still knows the units being stopped.
    let stop_jobs = manager.submit_unit_jobs(UnitAction::Stop, &convert_services(&to_stop));
    match wait_for_jobs(&manager, &monitor, stop_jobs, &timeout) {
        Ok(()) => {},
        Err(e) => {
            return Err(ActivationError::with_partial_result(services, e.message));
        },
    }

    // Reload what changed and start the manager target in the same batch.
    let mut batch = manager.submit_unit_jobs(
        UnitAction::ReloadOrRestart,
        &convert_services(&to_reload),
    );
    let mut targets: Vec<String> = Vec::new();
    targets.push(manager_target_name());
    let mut start_jobs = manager.submit_unit_jobs(UnitAction::Start, &targets);
    batch.append(&mut start_jobs);
    match wait_for_jobs(&manager, &monitor, batch, &timeout) {
        Ok(()) => {},
        Err(e) => {
            return Err(ActivationError::with_partial_result(services, e.message));
        },
    }

    Ok(services)
}

/// Stop every unit of the previous generation together with the manager
/// target, then ask the supervisor to reload; on success the empty service
/// set is returned.
pub fn deactivate(old_services: Services) -> (r: ActivationResult<Services>)
    requires
        old_services.wf(),
    ensures
        r matches Ok(s) ==> s@ == Map::<Seq<char>, Seq<char>>::empty() && s.wf(),
        r matches Err(e) ==> partial_of(e) == old_services || partial_of(e)@ == Map::<
            Seq<char>,
            Seq<char>,
        >::empty(),
{
    let manager = match ServiceManager::new_session() {
        Ok(m) => m,
        Err(e) => {
            return Err(ActivationError::with_partial_result(old_services, e.message));
        },
    };
    if !old_services.is_empty() {
        let monitor = match manager.monitor_jobs_init() {
            Ok(m) => m,
            Err(e) => {
                return Err(ActivationError::with_partial_result(old_services, e.message));
            },
        };
        let timeout = Some(JOB_TIMEOUT_MILLIS);
        let mut units_to_stop = convert_services(&old_services);
        units_to_stop.push(manager_target_name());
        let stop_jobs = manager.submit_unit_jobs(UnitAction::Stop, &units_to_stop);
        match wait_for_jobs(&manager, &monitor, stop_jobs, &timeout) {
            Ok(()) => {},
            Err(e) => {
                // the units are considered stopped from here on
                return Err(ActivationError::with_partial_result(Services::new(), e.message));
            },
        }
    }
    match manager.daemon_reload() {
        Ok(()) => {},
        Err(e) => {
            return Err(ActivationError::with_partial_result(Services::new(), e.message));
        },
    }
    Ok(Services::new())
}

/// After a reconfiguration of early boot units, reload the supervisor and
/// restart its reactivation target, waiting out the batch deadline.
pub fn restart_sysinit_reactivation_target() -> (r: Result<(), crate::systemd::DbusError>) {
    let manager = ServiceManager::new_session()?;
    let monitor = manager.monitor_jobs_init()?;
    let timeout = Some(JOB_TIMEOUT_MILLIS);
    manager.daemon_reload()?;
    let mut targets: Vec<String> = Vec::new();
    targets.push("sysinit-reactivation.target".to_owned());
    let jobs = manager.submit_unit_jobs(UnitAction::Restart, &targets);
    wait_for_jobs(&manager, &monitor, jobs, &timeout)
}

/// If a unit named `userborn.service` exists, restart it — it is a oneshot
/// that stays active after exit, so a plain start would not run it — and
/// wait for the job.  Without such a unit nothing is done.
pub fn restart_userborn_if_exists() -> (r: Result<(), crate::systemd::DbusError>) {
    let manager = ServiceManager::new_session()?;
    let states: Vec<String> = Vec::new();
    let mut patterns: Vec<String> = Vec::new();
    patterns.push("userborn.service".to_owned());
    let units = manager.list_units_by_patterns(&states, &patterns)?;
    if units.len() == 0 {
        return Ok(());
    }
    let monitor = manager.monitor_jobs_init()?;
    let timeout = Some(JOB_TIMEOUT_MILLIS);
    let jobs = manager.submit_unit_jobs(UnitAction::Restart, &patterns);
    wait_for_jobs(&manager, &monitor, jobs, &timeout)
}

} // verus!
