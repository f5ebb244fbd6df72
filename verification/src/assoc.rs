//! Sorted key-value pair vectors: the representation behind map frames and
//! the store's namespaces. Keys are byte strings ordered lexicographically;
//! `pairs_view` is the mathematical map a pair vector denotes, with later
//! pairs shadowing earlier ones.

use vstd::prelude::*;
use crate::resp::{FrameModel, RespFrame, RespMap, SimpleString, SimpleError, BulkString,
    RespArray, RespNull, RespNullArray, RespNullBulkString, RespDouble, RespSet, frame_model,
    model_items, model_entries, lemma_model_items, lemma_model_entries, lemma_model_items_at,
    lemma_model_entries_at, lex_lt};

verus! {

// ---------------------------------------------------------------------------
// Byte-string comparison
// ---------------------------------------------------------------------------

pub fn bytes_eq(a: &Vec<u8>, b: &Vec<u8>) -> (r: bool)
    ensures
        r == (a@ == b@),
{
    if a.len() != b.len() {
        return false;
    }
    let mut i: usize = 0;
    while i < a.len()
        invariant
            i <= a.len(),
            a.len() == b.len(),
            forall|j: int| 0 <= j < i ==> a@[j] == b@[j],
        decreases a.len() - i,
    {
        if a[i] != b[i] {
            return false;
        }
        i = i + 1;
    }
    proof {
        assert(a@ =~= b@);
    }
    true
}

pub fn lex_less(a: &Vec<u8>, b: &Vec<u8>) -> (r: bool)
    ensures
        r == lex_lt(a@, b@),
{
    proof {
        assert(a@.skip(0) =~= a@);
        assert(b@.skip(0) =~= b@);
    }
    let mut i: usize = 0;
    while i < a.len() && i < b.len()
        invariant
            i <= a.len(),
            i <= b.len(),
            lex_lt(a@, b@) == lex_lt(a@.skip(i as int), b@.skip(i as int)),
        decreases a.len() - i,
    {
        proof {
            assert(a@.skip(i as int)[0] == a@[i as int]);
            assert(b@.skip(i as int)[0] == b@[i as int]);
        }
        let x = a[i];
        let y = b[i];
        if x < y {
            return true;
        }
        if x > y {
            return false;
        }
        proof {
            assert(a@.skip(i as int).skip(1) =~= a@.skip(i + 1));
            assert(b@.skip(i as int).skip(1) =~= b@.skip(i + 1));
        }
        i = i + 1;
    }
    i < b.len()
}

pub proof fn lemma_lex_lt_irrefl(a: Seq<u8>)
    ensures
        !lex_lt(a, a),
    decreases a.len(),
{
    if a.len() > 0 {
        lemma_lex_lt_irrefl(a.skip(1));
    }
}

pub proof fn lemma_lex_lt_trans(a: Seq<u8>, b: Seq<u8>, c: Seq<u8>)
    requires
        lex_lt(a, b),
        lex_lt(b, c),
    ensures
        lex_lt(a, c),
    decreases a.len(),
{
    if a.len() > 0 && b.len() > 0 && c.len() > 0 && a[0] == b[0] && b[0] == c[0] {
        lemma_lex_lt_trans(a.skip(1), b.skip(1), c.skip(1));
    }
}

pub proof fn lemma_lex_lt_connex(a: Seq<u8>, b: Seq<u8>)
    ensures
        lex_lt(a, b) || lex_lt(b, a) || a == b,
    decreases a.len(),
{
    if a.len() == 0 && b.len() == 0 {
        assert(a =~= b);
    } else if a.len() > 0 && b.len() > 0 && a[0] == b[0] {
        lemma_lex_lt_connex(a.skip(1), b.skip(1));
        if !lex_lt(a, b) && !lex_lt(b, a) {
            assert(a.skip(1) == b.skip(1));
            assert forall|j: int| 0 <= j < a.len() implies a[j] == b[j] by {
                if j > 0 {
                    assert(a.skip(1)[j - 1] == a[j]);
                    assert(b.skip(1)[j - 1] == b[j]);
                }
            }
            assert(a =~= b);
        }
    }
}

// ---------------------------------------------------------------------------
// The map denoted by a pair vector
// ---------------------------------------------------------------------------

pub open spec fn pairs_view(s: Seq<(Vec<u8>, RespFrame)>) -> Map<Seq<u8>, FrameModel>
    decreases s.len(),
{
    if s.len() == 0 {
        Map::empty()
    } else {
        pairs_view(s.drop_last()).insert(s.last().0@, frame_model(s.last().1))
    }
}

/// Keys strictly ascend along the vector (which also makes them unique).
pub open spec fn sorted_pairs(s: Seq<(Vec<u8>, RespFrame)>) -> bool {
    forall|j: int| 0 <= j && j + 1 < s.len() ==> lex_lt((#[trigger] s[j]).0@, s[j + 1].0@)
}

pub proof fn lemma_sorted_pairs_all(s: Seq<(Vec<u8>, RespFrame)>, i: int, j: int)
    requires
        sorted_pairs(s),
        0 <= i < j < s.len(),
    ensures
        lex_lt(s[i].0@, s[j].0@),
    decreases j - i,
{
    if j > i + 1 {
        lemma_sorted_pairs_all(s, i, j - 1);
        lemma_lex_lt_trans(s[i].0@, s[j - 1].0@, s[j].0@);
    }
}

/// The view's verdict on `key` matches the last matching pair in the vector.
pub proof fn lemma_pairs_view_found(s: Seq<(Vec<u8>, RespFrame)>, key: Seq<u8>, i: int)
    requires
        0 <= i < s.len(),
        s[i].0@ == key,
        forall|j: int| i < j < s.len() ==> (#[trigger] s[j]).0@ != key,
    ensures
        pairs_view(s).contains_key(key),
        pairs_view(s)[key] == frame_model(s[i].1),
    decreases s.len(),
{
    if i < s.len() - 1 {
        let d = s.drop_last();
        assert(d[i] == s[i]);
        assert forall|j: int| i < j < d.len() implies (#[trigger] d[j]).0@ != key by {
            assert(d[j] == s[j]);
        }
        lemma_pairs_view_found(d, key, i);
        assert(s.last().0@ != key);
    }
}

pub proof fn lemma_pairs_view_absent(s: Seq<(Vec<u8>, RespFrame)>, key: Seq<u8>)
    requires
        forall|j: int| 0 <= j < s.len() ==> (#[trigger] s[j]).0@ != key,
    ensures
        !pairs_view(s).contains_key(key),
    decreases s.len(),
{
    if s.len() > 0 {
        let d = s.drop_last();
        assert forall|j: int| 0 <= j < d.len() implies (#[trigger] d[j]).0@ != key by {
            assert(d[j] == s[j]);
        }
        lemma_pairs_view_absent(d, key);
        assert(s.last().0@ != key);
    }
}

/// Inserting a pair at a position at or after every other occurrence of its
/// key updates the view like a map insert.
pub proof fn lemma_pairs_view_insert(s: Seq<(Vec<u8>, RespFrame)>, i: int, p: (Vec<u8>, RespFrame))
    requires
        0 <= i <= s.len(),
        forall|j: int| i <= j < s.len() ==> (#[trigger] s[j]).0@ != p.0@,
    ensures
        pairs_view(s.insert(i, p)) == pairs_view(s).insert(p.0@, frame_model(p.1)),
    decreases s.len(),
{
    let s2 = s.insert(i, p);
    if i == s.len() {
        assert(s2 =~= s.push(p));
        assert(s2.drop_last() =~= s);
        assert(s2.last() == p);
    } else {
        assert(s2.last() == s.last());
        assert(s2.drop_last() =~= s.drop_last().insert(i, p));
        let d = s.drop_last();
        assert forall|j: int| i <= j < d.len() implies (#[trigger] d[j]).0@ != p.0@ by {
            assert(d[j] == s[j]);
        }
        lemma_pairs_view_insert(d, i, p);
        let m = pairs_view(d);
        let pk = p.0@;
        let pv = frame_model(p.1);
        let lk = s.last().0@;
        let lv = frame_model(s.last().1);
        assert(lk != pk);
        assert(m.insert(pk, pv).insert(lk, lv) =~= m.insert(lk, lv).insert(pk, pv));
    }
}

/// Replacing the last occurrence of a key updates the view like a map
/// insert.
pub proof fn lemma_pairs_view_update(s: Seq<(Vec<u8>, RespFrame)>, i: int, p: (Vec<u8>, RespFrame))
    requires
        0 <= i < s.len(),
        s[i].0@ == p.0@,
        forall|j: int| i < j < s.len() ==> (#[trigger] s[j]).0@ != p.0@,
    ensures
        pairs_view(s.update(i, p)) == pairs_view(s).insert(p.0@, frame_model(p.1)),
    decreases s.len(),
{
    let s2 = s.update(i, p);
    let pk = p.0@;
    let pv = frame_model(p.1);
    if i == s.len() - 1 {
        assert(s2.drop_last() =~= s.drop_last());
        assert(s2.last() == p);
        let m = pairs_view(s.drop_last());
        assert(m.insert(s.last().0@, frame_model(s.last().1)).insert(pk, pv) =~= m.insert(pk, pv));
    } else {
        assert(s2.last() == s.last());
        assert(s2.drop_last() =~= s.drop_last().update(i, p));
        let d = s.drop_last();
        assert(d[i] == s[i]);
        assert forall|j: int| i < j < d.len() implies (#[trigger] d[j]).0@ != pk by {
            assert(d[j] == s[j]);
        }
        lemma_pairs_view_update(d, i, p);
        let m = pairs_view(d);
        let lk = s.last().0@;
        let lv = frame_model(s.last().1);
        assert(lk != pk);
        assert(m.insert(pk, pv).insert(lk, lv) =~= m.insert(lk, lv).insert(pk, pv));
    }
}

/// Vectors with pointwise equal keys and value models denote the same map.
pub proof fn lemma_pairs_view_congruent(s1: Seq<(Vec<u8>, RespFrame)>, s2: Seq<(Vec<u8>, RespFrame)>)
    requires
        s1.len() == s2.len(),
        forall|j: int| 0 <= j < s1.len() ==> (#[trigger] s1[j]).0@ == s2[j].0@ && frame_model(
            s1[j].1,
        ) == frame_model(s2[j].1),
    ensures
        pairs_view(s1) == pairs_view(s2),
    decreases s1.len(),
{
    if s1.len() > 0 {
        let d1 = s1.drop_last();
        let d2 = s2.drop_last();
        assert forall|j: int| 0 <= j < d1.len() implies (#[trigger] d1[j]).0@ == d2[j].0@
            && frame_model(d1[j].1) == frame_model(d2[j].1) by {
            assert(d1[j] == s1[j] && d2[j] == s2[j]);
        }
        lemma_pairs_view_congruent(d1, d2);
        assert(s1.last() == s1[s1.len() - 1] && s2.last() == s2[s2.len() - 1]);
    }
}

/// Scan for the last pair holding `key`.
pub fn find_keyed<V>(v: &Vec<(Vec<u8>, V)>, key: &Vec<u8>) -> (r: Option<usize>)
    ensures
        match r {
            Some(i) => i < v@.len() && v@[i as int].0@ == key@ && forall|j: int|
                i < j < v@.len() ==> (#[trigger] v@[j]).0@ != key@,
            None => forall|j: int| 0 <= j < v@.len() ==> (#[trigger] v@[j]).0@ != key@,
        },
{
    let mut i: usize = v.len();
    while i > 0
        invariant
            i <= v@.len(),
            forall|j: int| i <= j < v@.len() ==> (#[trigger] v@[j]).0@ != key@,
        decreases i,
    {
        i = i - 1;
        if bytes_eq(&v[i].0, key) {
            return Some(i);
        }
    }
    None
}

// ---------------------------------------------------------------------------
// Deep copies
// ---------------------------------------------------------------------------

pub fn copy_bytes(v: &Vec<u8>) -> (r: Vec<u8>)
    ensures
        r@ == v@,
{
    let mut out: Vec<u8> = Vec::new();
    let mut i: usize = 0;
    while i < v.len()
        invariant
            i <= v.len(),
            out@ == v@.subrange(0, i as int),
        decreases v.len() - i,
    {
        out.push(v[i]);
        proof {
            assert(v@.subrange(0, i + 1 as int) =~= v@.subrange(0, i as int).push(v@[i as int]));
        }
        i = i + 1;
    }
    proof {
        assert(v@.subrange(0, v@.len() as int) =~= v@);
    }
    out
}

impl RespFrame {
    /// A deep copy denoting the same model value.
    pub fn duplicate(&self) -> (r: RespFrame)
        ensures
            frame_model(r) == frame_model(*self),
        decreases *self, 0int, 0int,
    {
        match self {
            RespFrame::SimpleString(s) => RespFrame::SimpleString(SimpleString(copy_bytes(&s.0))),
            RespFrame::Error(s) => RespFrame::Error(SimpleError(copy_bytes(&s.0))),
            RespFrame::Integer(i) => RespFrame::Integer(*i),
            RespFrame::BulkString(b) => RespFrame::BulkString(BulkString(copy_bytes(&b.0))),
            RespFrame::NullBulkString(_) => RespFrame::NullBulkString(RespNullBulkString),
            RespFrame::Null(_) => RespFrame::Null(RespNull),
            RespFrame::NullArray(_) => RespFrame::NullArray(RespNullArray),
            RespFrame::Boolean(b) => RespFrame::Boolean(*b),
            RespFrame::Double(d) => RespFrame::Double(RespDouble(copy_bytes(&d.0))),
            RespFrame::Array(a) => {
                let mut out: Vec<RespFrame> = Vec::new();
                let mut i: usize = 0;
                while i < a.0.len()
                    invariant
                        *self == RespFrame::Array(*a),
                        i <= a.0.len(),
                        out@.len() == i,
                        forall|j: int| 0 <= j < i ==> frame_model(#[trigger] out@[j])
                            == frame_model(a.0@[j]),
                    decreases a.0.len() - i,
                {
                    proof {
                        assert(decreases_to!(*self => self->Array_0));
                        assert(self->Array_0 == *a);
                        assert(decreases_to!(*a => a.0));
                        assert(decreases_to!(a.0 => a.0@));
                        assert(decreases_to!(a.0@ => a.0@[i as int]));
                    }
                    let d = a.0[i].duplicate();
                    out.push(d);
                    i = i + 1;
                }
                proof {
                    lemma_model_items(out@, 0);
                    lemma_model_items(a.0@, 0);
                    assert forall|j: int| 0 <= j < a.0@.len() implies model_items(out@, 0)[j]
                        == model_items(a.0@, 0)[j] by {
                        lemma_model_items_at(out@, j);
                        lemma_model_items_at(a.0@, j);
                    }
                    assert(model_items(out@, 0) =~= model_items(a.0@, 0));
                }
                RespFrame::Array(RespArray(out))
            },
            RespFrame::SetFrame(s) => {
                let mut out: Vec<RespFrame> = Vec::new();
                let mut i: usize = 0;
                while i < s.0.len()
                    invariant
                        *self == RespFrame::SetFrame(*s),
                        i <= s.0.len(),
                        out@.len() == i,
                        forall|j: int| 0 <= j < i ==> frame_model(#[trigger] out@[j])
                            == frame_model(s.0@[j]),
                    decreases s.0.len() - i,
                {
                    proof {
                        assert(decreases_to!(*self => self->SetFrame_0));
                        assert(self->SetFrame_0 == *s);
                        assert(decreases_to!(*s => s.0));
                        assert(decreases_to!(s.0 => s.0@));
                        assert(decreases_to!(s.0@ => s.0@[i as int]));
                    }
                    let d = s.0[i].duplicate();
                    out.push(d);
                    i = i + 1;
                }
                proof {
                    lemma_model_items(out@, 0);
                    lemma_model_items(s.0@, 0);
                    assert forall|j: int| 0 <= j < s.0@.len() implies model_items(out@, 0)[j]
                        == model_items(s.0@, 0)[j] by {
                        lemma_model_items_at(out@, j);
                        lemma_model_items_at(s.0@, j);
                    }
                    assert(model_items(out@, 0) =~= model_items(s.0@, 0));
                }
                RespFrame::SetFrame(RespSet(out))
            },
            RespFrame::MapFrame(m) => {
                proof {
                    assert(decreases_to!(*self => self->MapFrame_0));
                    assert(self->MapFrame_0 == *m);
                }
                RespFrame::MapFrame(dup_respmap(m))
            },
        }
    }
}

/// A deep copy of a map frame: same keys, same value models, same order.
#[verifier::rlimit(50)]
pub fn dup_respmap(m: &RespMap) -> (r: RespMap)
    ensures
        r.0@.len() == m.0@.len(),
        forall|j: int| 0 <= j < m.0@.len() ==> (#[trigger] r.0@[j]).0@ == m.0@[j].0@
            && frame_model(r.0@[j].1) == frame_model(m.0@[j].1),
        pairs_view(r.0@) == pairs_view(m.0@),
        sorted_pairs(m.0@) ==> sorted_pairs(r.0@),
        model_entries(r.0@, 0) == model_entries(m.0@, 0),
    decreases *m, 1int, 0int,
{
    let mut out: Vec<(Vec<u8>, RespFrame)> = Vec::new();
    let mut i: usize = 0;
    while i < m.0.len()
        invariant
            i <= m.0.len(),
            out@.len() == i,
            forall|j: int| 0 <= j < i ==> (#[trigger] out@[j]).0@ == m.0@[j].0@ && frame_model(
                out@[j].1,
            ) == frame_model(m.0@[j].1),
        decreases m.0.len() - i,
    {
        proof {
            assert(decreases_to!(*m => m.0));
            assert(decreases_to!(m.0 => m.0@));
            assert(decreases_to!(m.0@ => m.0@[i as int]));
            assert(decreases_to!(m.0@[i as int] => m.0@[i as int].1));
        }
        let k = copy_bytes(&m.0[i].0);
        let v = m.0[i].1.duplicate();
        out.push((k, v));
        i = i + 1;
    }
    proof {
        lemma_pairs_view_congruent(out@, m.0@);
        if sorted_pairs(m.0@) {
            assert forall|j: int| 0 <= j && j + 1 < out@.len() implies lex_lt(
                (#[trigger] out@[j]).0@,
                out@[j + 1].0@,
            ) by {
                assert(lex_lt(m.0@[j].0@, m.0@[j + 1].0@));
            }
        }
        lemma_model_entries(out@, 0);
        lemma_model_entries(m.0@, 0);
        assert forall|j: int| 0 <= j < m.0@.len() implies model_entries(out@, 0)[j]
            == model_entries(m.0@, 0)[j] by {
            lemma_model_entries_at(out@, j);
            lemma_model_entries_at(m.0@, j);
        }
        assert(model_entries(out@, 0) =~= model_entries(m.0@, 0));
    }
    RespMap(out)
}

// ---------------------------------------------------------------------------
// Sorted insertion
// ---------------------------------------------------------------------------

impl RespMap {
    /// Insert or overwrite `key`, keeping the entries sorted by key.
    pub fn insert(&mut self, key: Vec<u8>, value: RespFrame)
        requires
            sorted_pairs(old(self).0@),
        ensures
            sorted_pairs(final(self).0@),
            pairs_view(final(self).0@) == pairs_view(old(self).0@).insert(
                key@,
                frame_model(value),
            ),
    {
        let mut i: usize = 0;
        while i < self.0.len() && lex_less(&self.0[i].0, &key)
            invariant
                i <= self.0.len(),
                *self == *old(self),
                forall|j: int| 0 <= j < i ==> lex_lt((#[trigger] self.0@[j]).0@, key@),
            decreases self.0.len() - i,
        {
            i = i + 1;
        }
        let ghost olds = self.0@;
        if i < self.0.len() && bytes_eq(&self.0[i].0, &key) {
            proof {
                assert forall|j: int| i < j < olds.len() implies (#[trigger] olds[j]).0@ != key@ by {
                    lemma_sorted_pairs_all(olds, i as int, j);
                    lemma_lex_lt_irrefl(olds[j].0@);
                    if olds[j].0@ == key@ {
                        assert(lex_lt(key@, key@));
                    }
                }
            }
            let removed = self.0.remove(i);
            self.0.insert(i, (key, value));
            proof {
                let p = self.0@[i as int];
                assert(self.0@ =~= olds.update(i as int, p));
                lemma_pairs_view_update(olds, i as int, p);
                assert forall|j: int| 0 <= j && j + 1 < self.0@.len() implies lex_lt(
                    (#[trigger] self.0@[j]).0@,
                    self.0@[j + 1].0@,
                ) by {
                    assert(self.0@[j].0@ == olds[j].0@);
                    assert(self.0@[j + 1].0@ == olds[j + 1].0@);
                }
            }
        } else {
            proof {
                lemma_lex_lt_irrefl(key@);
                if i < olds.len() {
                    lemma_lex_lt_connex(key@, olds[i as int].0@);
                    assert(lex_lt(key@, olds[i as int].0@));
                }
                assert forall|j: int| i <= j < olds.len() implies (#[trigger] olds[j]).0@ != key@ by {
                    if j > i {
                        lemma_sorted_pairs_all(olds, i as int, j);
                        lemma_lex_lt_trans(key@, olds[i as int].0@, olds[j].0@);
                    }
                    if olds[j].0@ == key@ {
                        assert(lex_lt(key@, key@));
                    }
                }
            }
            self.0.insert(i, (key, value));
            proof {
                let p = self.0@[i as int];
                assert(self.0@ =~= olds.insert(i as int, p));
                lemma_pairs_view_insert(olds, i as int, p);
                assert forall|j: int| 0 <= j && j + 1 < self.0@.len() implies lex_lt(
                    (#[trigger] self.0@[j]).0@,
                    self.0@[j + 1].0@,
                ) by {
                    if j + 1 < i {
                        assert(self.0@[j] == olds[j] && self.0@[j + 1] == olds[j + 1]);
                    } else if j + 1 == i {
                        assert(self.0@[j] == olds[j]);
                        assert(lex_lt(olds[j].0@, key@));
                    } else if j == i {
                        assert(self.0@[j + 1] == olds[j]);
                        assert(lex_lt(key@, olds[i as int].0@));
                    } else {
                        assert(self.0@[j] == olds[j - 1] && self.0@[j + 1] == olds[j]);
                    }
                }
            }
        }
    }
}

} // verus!
