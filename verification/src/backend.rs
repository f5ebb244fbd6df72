//! The in-memory store: a scalar namespace (key to value) and a hash
//! namespace (key to field to value). Writes append a pair; the latest pair
//! for a key is authoritative, which is exactly what the views say. The
//! concurrent wrapper around this core lives outside the library: spec-wise
//! each operation is atomic, and a coarse lock preserves that.

use vstd::prelude::*;
use crate::resp::{FrameModel, RespFrame, RespMap, frame_model};
use crate::assoc::{pairs_view, sorted_pairs, find_keyed, dup_respmap, lemma_pairs_view_found,
    lemma_pairs_view_absent};

verus! {

/// The map-of-maps denoted by the hash namespace's pair vector.
pub open spec fn hpairs_view(s: Seq<(Vec<u8>, RespMap)>) -> Map<Seq<u8>, Map<Seq<u8>, FrameModel>>
    decreases s.len(),
{
    if s.len() == 0 {
        Map::empty()
    } else {
        hpairs_view(s.drop_last()).insert(s.last().0@, pairs_view(s.last().1.0@))
    }
}

pub proof fn lemma_hpairs_view_found(s: Seq<(Vec<u8>, RespMap)>, key: Seq<u8>, i: int)
    requires
        0 <= i < s.len(),
        s[i].0@ == key,
        forall|j: int| i < j < s.len() ==> (#[trigger] s[j]).0@ != key,
    ensures
        hpairs_view(s).contains_key(key),
        hpairs_view(s)[key] == pairs_view(s[i].1.0@),
    decreases s.len(),
{
    if i < s.len() - 1 {
        let d = s.drop_last();
        assert(d[i] == s[i]);
        assert forall|j: int| i < j < d.len() implies (#[trigger] d[j]).0@ != key by {
            assert(d[j] == s[j]);
        }
        lemma_hpairs_view_found(d, key, i);
        assert(s.last().0@ != key);
    }
}

pub proof fn lemma_hpairs_view_absent(s: Seq<(Vec<u8>, RespMap)>, key: Seq<u8>)
    requires
        forall|j: int| 0 <= j < s.len() ==> (#[trigger] s[j]).0@ != key,
    ensures
        !hpairs_view(s).contains_key(key),
    decreases s.len(),
{
    if s.len() > 0 {
        let d = s.drop_last();
        assert forall|j: int| 0 <= j < d.len() implies (#[trigger] d[j]).0@ != key by {
            assert(d[j] == s[j]);
        }
        lemma_hpairs_view_absent(d, key);
        assert(s.last().0@ != key);
    }
}

/// The backend store. No entry is ever deleted; a write for an existing key
/// shadows the previous one.
#[derive(Debug)]
pub struct Backend {
    map: Vec<(Vec<u8>, RespFrame)>,
    hmap: Vec<(Vec<u8>, RespMap)>,
}

impl Backend {
    /// The scalar namespace as a mathematical map.
    pub closed spec fn scalar_view(&self) -> Map<Seq<u8>, FrameModel> {
        pairs_view(self.map@)
    }

    /// The hash namespace as a mathematical map of maps.
    pub closed spec fn hash_view(&self) -> Map<Seq<u8>, Map<Seq<u8>, FrameModel>> {
        hpairs_view(self.hmap@)
    }

    /// Every inner hash keeps its entries sorted by field.
    pub closed spec fn wf(&self) -> bool {
        forall|j: int| 0 <= j < self.hmap@.len() ==> sorted_pairs((#[trigger] self.hmap@[j]).1.0@)
    }

    pub fn new() -> (r: Self)
        ensures
            r.wf(),
            r.scalar_view() == Map::<Seq<u8>, FrameModel>::empty(),
            r.hash_view() == Map::<Seq<u8>, Map<Seq<u8>, FrameModel>>::empty(),
    {
        Backend { map: Vec::new(), hmap: Vec::new() }
    }

    /// Read a key from the scalar namespace: `Some` with the stored value
    /// exactly when the key has been set.
    pub fn get(&self, key: &Vec<u8>) -> (r: Option<RespFrame>)
        ensures
            match r {
                Some(f) => self.scalar_view().contains_key(key@) && frame_model(f)
                    == self.scalar_view()[key@],
                None => !self.scalar_view().contains_key(key@),
            },
    {
        match find_keyed(&self.map, key) {
            Some(i) => {
                proof {
                    lemma_pairs_view_found(self.map@, key@, i as int);
                }
                Some(self.map[i].1.duplicate())
            },
            None => {
                proof {
                    lemma_pairs_view_absent(self.map@, key@);
                }
                None
            },
        }
    }

    /// Store a value under a key, overwriting any prior value.
    pub fn set(&mut self, key: Vec<u8>, value: RespFrame)
        ensures
            old(self).wf() ==> final(self).wf(),
            final(self).scalar_view() == old(self).scalar_view().insert(
                key@,
                frame_model(value),
            ),
            final(self).hash_view() == old(self).hash_view(),
    {
        self.map.push((key, value));
        proof {
            assert(self.map@.drop_last() =~= old(self).map@);
        }
    }

    /// Two-level read: `Some` exactly when the key's hash exists and holds
    /// the field.
    pub fn hget(&self, key: &Vec<u8>, field: &Vec<u8>) -> (r: Option<RespFrame>)
        ensures
            match r {
                Some(f) => self.hash_view().contains_key(key@)
                    && self.hash_view()[key@].contains_key(field@)
                    && frame_model(f) == self.hash_view()[key@][field@],
                None => !(self.hash_view().contains_key(key@)
                    && self.hash_view()[key@].contains_key(field@)),
            },
    {
        match find_keyed(&self.hmap, key) {
            Some(i) => {
                proof {
                    lemma_hpairs_view_found(self.hmap@, key@, i as int);
                }
                let inner = &self.hmap[i].1;
                match find_keyed(&inner.0, field) {
                    Some(j) => {
                        proof {
                            lemma_pairs_view_found(inner.0@, field@, j as int);
                        }
                        Some(inner.0[j].1.duplicate())
                    },
                    None => {
                        proof {
                            lemma_pairs_view_absent(inner.0@, field@);
                        }
                        None
                    },
                }
            },
            None => {
                proof {
                    lemma_hpairs_view_absent(self.hmap@, key@);
                }
                None
            },
        }
    }

    /// Write one field of a key's hash, creating the hash on the first write
    /// to an unseen key.
    pub fn hset(&mut self, key: Vec<u8>, field: Vec<u8>, value: RespFrame)
        requires
            old(self).wf(),
        ensures
            final(self).wf(),
            final(self).scalar_view() == old(self).scalar_view(),
            final(self).hash_view() == old(self).hash_view().insert(
                key@,
                (if old(self).hash_view().contains_key(key@) {
                    old(self).hash_view()[key@]
                } else {
                    Map::<Seq<u8>, FrameModel>::empty()
                }).insert(field@, frame_model(value)),
            ),
    {
        let mut inner: RespMap = match find_keyed(&self.hmap, &key) {
            Some(i) => {
                proof {
                    lemma_hpairs_view_found(self.hmap@, key@, i as int);
                    assert(sorted_pairs(self.hmap@[i as int].1.0@));
                }
                dup_respmap(&self.hmap[i].1)
            },
            None => {
                proof {
                    lemma_hpairs_view_absent(self.hmap@, key@);
                }
                RespMap::new()
            },
        };
        proof {
            assert(sorted_pairs(inner.0@));
            assert(pairs_view(inner.0@) == (if old(self).hash_view().contains_key(key@) {
                old(self).hash_view()[key@]
            } else {
                Map::<Seq<u8>, FrameModel>::empty()
            }));
        }
        inner.insert(field, value);
        self.hmap.push((key, inner));
        proof {
            assert(self.hmap@.drop_last() =~= old(self).hmap@);
            assert forall|j: int| 0 <= j < self.hmap@.len() implies sorted_pairs(
                (#[trigger] self.hmap@[j]).1.0@,
            ) by {
                if j < self.hmap@.len() - 1 {
                    assert(self.hmap@[j] == old(self).hmap@[j]);
                }
            }
        }
    }

    /// An immutable snapshot of a key's hash, fields sorted, or `None` if the
    /// key has never been written.
    pub fn hgetall(&self, key: &Vec<u8>) -> (r: Option<RespMap>)
        requires
            self.wf(),
        ensures
            match r {
                Some(m) => self.hash_view().contains_key(key@) && pairs_view(m.0@)
                    == self.hash_view()[key@] && sorted_pairs(m.0@),
                None => !self.hash_view().contains_key(key@),
            },
    {
        match find_keyed(&self.hmap, key) {
            Some(i) => {
                proof {
                    lemma_hpairs_view_found(self.hmap@, key@, i as int);
                    assert(sorted_pairs(self.hmap@[i as int].1.0@));
                }
                Some(dup_respmap(&self.hmap[i].1))
            },
            None => {
                proof {
                    lemma_hpairs_view_absent(self.hmap@, key@);
                }
                None
            },
        }
    }
}

impl Default for Backend {
    fn default() -> (r: Self)
        ensures
            r.wf(),
            r.scalar_view() == Map::<Seq<u8>, FrameModel>::empty(),
            r.hash_view() == Map::<Seq<u8>, Map<Seq<u8>, FrameModel>>::empty(),
    {
        Backend::new()
    }
}

// ---------------------------------------------------------------------------
// Store laws
// ---------------------------------------------------------------------------

/// Read-your-write, scalar namespace: `set(k, x)` makes the scalar view
/// `old.insert(k, x)` and `get(k)` returns exactly the view's value, so a
/// get after a set yields the value just written.
pub proof fn lemma_scalar_read_your_write(m: Map<Seq<u8>, FrameModel>, k: Seq<u8>, x: FrameModel)
    ensures
        m.insert(k, x).contains_key(k),
        m.insert(k, x)[k] == x,
{
}

/// Read-your-write, hash namespace: after `hset(k, f, x)` the hash view
/// holds `f -> x` under `k`, which is what `hget(k, f)` and `hgetall(k)`
/// return.
pub proof fn lemma_hash_read_your_write(
    h: Map<Seq<u8>, Map<Seq<u8>, FrameModel>>,
    inner: Map<Seq<u8>, FrameModel>,
    k: Seq<u8>,
    f: Seq<u8>,
    x: FrameModel,
)
    ensures
        h.insert(k, inner.insert(f, x)).contains_key(k),
        h.insert(k, inner.insert(f, x))[k].contains_key(f),
        h.insert(k, inner.insert(f, x))[k][f] == x,
{
}

/// Hash field independence: writing two distinct fields of one key leaves
/// both readable, and a hash built from nothing but those two writes holds
/// exactly those two fields.
pub proof fn lemma_hash_field_independence(
    inner: Map<Seq<u8>, FrameModel>,
    f1: Seq<u8>,
    x: FrameModel,
    f2: Seq<u8>,
    y: FrameModel,
)
    requires
        f1 != f2,
    ensures
        inner.insert(f1, x).insert(f2, y)[f1] == x,
        inner.insert(f1, x).insert(f2, y)[f2] == y,
        Map::<Seq<u8>, FrameModel>::empty().insert(f1, x).insert(f2, y).dom() == set![f1, f2],
{
    assert(Map::<Seq<u8>, FrameModel>::empty().insert(f1, x).insert(f2, y).dom() =~= set![f1, f2]);
}

/// Absence: a fresh store's views contain no key at all, so `get`, `hget`
/// and `hgetall` on a never-written key all report absence.
pub proof fn lemma_absence(k: Seq<u8>)
    ensures
        !Map::<Seq<u8>, FrameModel>::empty().contains_key(k),
        !Map::<Seq<u8>, Map<Seq<u8>, FrameModel>>::empty().contains_key(k),
{
}

} // verus!
