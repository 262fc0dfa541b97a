//! The per-zone resolver cache: maps a zone name to the one long-lived
//! upstream resolver handle configured for it, so concurrent requests reuse
//! a single handle instead of building one per request. Entries are created
//! on first demand and never removed. The host wraps this store in a
//! reader-writer lock; a racing first access may build a second handle, but
//! insertion keeps whichever handle was stored first and every caller
//! converges on it.

use vstd::prelude::*;
use vstd::string::StringExecFns;

verus! {

broadcast use vstd::std_specs::vec::group_vec_axioms, vstd::seq::group_seq_axioms;

/// A zone-keyed store of resolver handles, modelled as a map from zone names
/// to handles.
pub struct ResolverCache<H> {
    zones: Vec<String>,
    handles: Vec<H>,
}

impl<H> ResolverCache<H> {
    spec fn slot_find(zones: Seq<String>, handles: Seq<H>, z: Seq<char>) -> Option<H>
        decreases zones.len(),
    {
        if zones.len() == 0 || handles.len() == 0 {
            None
        } else if zones[0]@ == z {
            Some(handles[0])
        } else {
            Self::slot_find(zones.drop_first(), handles.drop_first(), z)
        }
    }

    /// The cache as a map from zone names to the handles stored for them.
    pub closed spec fn as_zone_map(self) -> Map<Seq<char>, H> {
        Map::new(
            |z: Seq<char>| Self::slot_find(self.zones@, self.handles@, z) is Some,
            |z: Seq<char>| Self::slot_find(self.zones@, self.handles@, z).unwrap(),
        )
    }

    /// One handle per stored zone.
    pub closed spec fn wf(self) -> bool {
        self.zones@.len() == self.handles@.len()
    }

    proof fn lemma_slot_find_at(zones: Seq<String>, handles: Seq<H>, i: int)
        requires
            zones.len() == handles.len(),
            0 <= i < zones.len(),
            forall|j: int| 0 <= j < i ==> zones[j]@ != zones[i]@,
        ensures
            Self::slot_find(zones, handles, zones[i]@) == Some(handles[i]),
        decreases i,
    {
        if i > 0 {
            Self::lemma_slot_find_at(zones.drop_first(), handles.drop_first(), i - 1);
        }
    }

    proof fn lemma_slot_find_none(zones: Seq<String>, handles: Seq<H>, z: Seq<char>)
        requires
            forall|j: int| 0 <= j < zones.len() ==> zones[j]@ != z,
        ensures
            Self::slot_find(zones, handles, z) is None,
        decreases zones.len(),
    {
        if zones.len() > 0 && handles.len() > 0 {
            Self::lemma_slot_find_none(zones.drop_first(), handles.drop_first(), z);
        }
    }

    /// Appending a slot resolves only lookups that missed before, and only
    /// for the appended zone.
    proof fn lemma_slot_find_push(
        zones: Seq<String>,
        handles: Seq<H>,
        nz: String,
        nh: H,
        z: Seq<char>,
    )
        requires
            zones.len() == handles.len(),
        ensures
            Self::slot_find(zones.push(nz), handles.push(nh), z) == (
            if Self::slot_find(zones, handles, z) is Some {
                Self::slot_find(zones, handles, z)
            } else if nz@ == z {
                Some(nh)
            } else {
                None::<H>
            }),
        decreases zones.len(),
    {
        let zs = zones.push(nz);
        let hs = handles.push(nh);
        if zones.len() == 0 {
            assert(zs[0] == nz && hs[0] == nh);
            assert(zs.drop_first() =~= Seq::<String>::empty());
        } else {
            assert(zs[0] == zones[0] && hs[0] == handles[0]);
            if zones[0]@ != z {
                assert(zs.drop_first() =~= zones.drop_first().push(nz));
                assert(hs.drop_first() =~= handles.drop_first().push(nh));
                Self::lemma_slot_find_push(zones.drop_first(), handles.drop_first(), nz, nh, z);
            }
        }
    }

    pub fn new() -> (c: Self)
        ensures
            c.wf(),
            c.as_zone_map() == Map::<Seq<char>, H>::empty(),
    {
        let c = ResolverCache::<H> { zones: Vec::new(), handles: Vec::new() };
        proof {
            assert forall|z: Seq<char>|
                Self::slot_find(c.zones@, c.handles@, z) is None by {}
            assert(c.as_zone_map() =~= Map::<Seq<char>, H>::empty());
        }
        c
    }

    /// The shared-path lookup: the handle stored for the zone, if any.
    pub fn lookup(&self, zone: &String) -> (r: Option<&H>)
        requires
            self.wf(),
        ensures
            match r {
                Some(h) => self.as_zone_map().dom().contains(zone@) && *h == self.as_zone_map()[zone@],
                None => !self.as_zone_map().dom().contains(zone@),
            },
    {
        let n = self.zones.len();
        let mut k: usize = 0;
        while k < n
            invariant
                k <= n,
                self.wf(),
                n == self.zones@.len(),
                forall|j: int| 0 <= j < k ==> self.zones@[j]@ != zone@,
            decreases n - k,
        {
            if self.zones[k] == *zone {
                proof {
                    assert(self.zones@[k as int]@ =~= zone@);
                    Self::lemma_slot_find_at(self.zones@, self.handles@, k as int);
                }
                return Some(&self.handles[k]);
            }
            proof {
                assert(self.zones@[k as int]@ != zone@);
            }
            k += 1;
        }
        proof {
            Self::lemma_slot_find_none(self.zones@, self.handles@, zone@);
        }
        None
    }

    /// The exclusive-path insertion: stores the handle under the zone unless
    /// one is already stored, so the first stored handle wins and the zone is
    /// present afterwards either way.
    pub fn insert_if_absent(&mut self, zone: &String, handle: H)
        requires
            old(self).wf(),
        ensures
            final(self).wf(),
            final(self).as_zone_map() == (if old(self).as_zone_map().dom().contains(zone@) {
                old(self).as_zone_map()
            } else {
                old(self).as_zone_map().insert(zone@, handle)
            }),
            final(self).as_zone_map().dom().contains(zone@),
    {
        let present = self.lookup(zone).is_some();
        if !present {
            self.zones.push(zone.clone());
            self.handles.push(handle);
            proof {
                assert forall|z: Seq<char>|
                    Self::slot_find(final(self).zones@, final(self).handles@, z) == (
                    if Self::slot_find(old(self).zones@, old(self).handles@, z) is Some {
                        Self::slot_find(old(self).zones@, old(self).handles@, z)
                    } else if z == zone@ {
                        Some(handle)
                    } else {
                        None::<H>
                    }) by {
                    Self::lemma_slot_find_push(
                        old(self).zones@,
                        old(self).handles@,
                        final(self).zones@.last(),
                        handle,
                        z,
                    );
                    assert(final(self).zones@ =~= old(self).zones@.push(final(self).zones@.last()));
                    assert(final(self).handles@ =~= old(self).handles@.push(handle));
                }
                assert(final(self).as_zone_map() =~= old(self).as_zone_map().insert(
                    zone@,
                    handle,
                ));
            }
        }
    }
}

} // verus!
