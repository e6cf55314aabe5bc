//! The in-memory index: a map from each key to the offset of the record
//! that holds its current value.
use vstd::prelude::*;
use vstd::slice::slice_to_vec;

verus! {

/// The map that a list of entries describes: later entries win.
pub open spec fn entries_map(s: Seq<(Seq<u8>, u64)>) -> Map<Seq<u8>, u64>
    decreases s.len(),
{
    if s.len() == 0 {
        Map::empty()
    } else {
        entries_map(s.drop_last()).insert(s.last().0, s.last().1)
    }
}

pub open spec fn keys_unique(s: Seq<(Seq<u8>, u64)>) -> bool {
    forall|i: int, j: int| 0 <= i < j < s.len() ==> s[i].0 != s[j].0
}

pub open spec fn entries_view(v: Seq<(Vec<u8>, u64)>) -> Seq<(Seq<u8>, u64)> {
    v.map_values(|e: (Vec<u8>, u64)| (e.0@, e.1))
}

pub proof fn lemma_entries_map_unique(s: Seq<(Seq<u8>, u64)>)
    requires
        keys_unique(s),
    ensures
        forall|k: Seq<u8>|
            #[trigger] entries_map(s).contains_key(k) <==> exists|i: int|
                0 <= i < s.len() && s[i].0 == k,
        forall|i: int|
            0 <= i < s.len() ==> #[trigger] entries_map(s)[s[i].0] == s[i].1,
    decreases s.len(),
{
    if s.len() > 0 {
        let t = s.drop_last();
        lemma_entries_map_unique(t);
        assert forall|k: Seq<u8>| #[trigger] entries_map(s).contains_key(k) implies exists|i: int|
            0 <= i < s.len() && s[i].0 == k by {
            if k != s.last().0 {
                assert(entries_map(t).contains_key(k));
                let i = choose|i: int| 0 <= i < t.len() && t[i].0 == k;
                assert(s[i] == t[i]);
            }
        }
        assert forall|i: int| 0 <= i < s.len() implies #[trigger] entries_map(s)[s[i].0] == s[i].1 by {
            if i < s.len() - 1 {
                assert(s[i] == t[i]);
                assert(entries_map(t)[t[i].0] == t[i].1);
                assert(s[i].0 != s[s.len() - 1].0);
            }
        }
        assert forall|k: Seq<u8>| (exists|i: int| 0 <= i < s.len() && s[i].0 == k) implies #[trigger] entries_map(s).contains_key(k) by {
            let i = choose|i: int| 0 <= i < s.len() && s[i].0 == k;
            if i < s.len() - 1 && k != s.last().0 {
                assert(t[i] == s[i]);
                assert(0 <= i < t.len() && t[i].0 == k);
                assert(entries_map(t).contains_key(k));
            }
        }
    }
}

pub proof fn lemma_entries_map_update(s: Seq<(Seq<u8>, u64)>, i: int, k: Seq<u8>, v: u64)
    requires
        keys_unique(s),
        0 <= i < s.len(),
        s[i].0 == k,
    ensures
        keys_unique(s.update(i, (k, v))),
        entries_map(s.update(i, (k, v))) == entries_map(s).insert(k, v),
    decreases s.len(),
{
    let u = s.update(i, (k, v));
    let t = s.drop_last();
    assert(keys_unique(u)) by {
        assert forall|a: int, b: int| 0 <= a < b < u.len() implies u[a].0 != u[b].0 by {
            assert(u[a].0 == s[a].0 && u[b].0 == s[b].0);
        }
    }
    if i == s.len() - 1 {
        assert(u.drop_last() =~= t);
        assert(entries_map(u) =~= entries_map(s).insert(k, v));
    } else {
        assert(u.drop_last() =~= t.update(i, (k, v)));
        lemma_entries_map_update(t, i, k, v);
        assert(s.last().0 != k);
        assert(entries_map(u) =~= entries_map(s).insert(k, v));
    }
}

/// An index from keys to record offsets; no key appears twice in it.
pub struct Index {
    entries: Vec<(Vec<u8>, u64)>,
}

impl View for Index {
    type V = Map<Seq<u8>, u64>;

    closed spec fn view(&self) -> Map<Seq<u8>, u64> {
        entries_map(entries_view(self.entries@))
    }
}

/// Whether two byte strings are equal.
pub fn bytes_eq(a: &[u8], b: &[u8]) -> (r: bool)
    ensures
        r == (a@ == b@),
{
    if a.len() != b.len() {
        return false;
    }
    let mut i: usize = 0;
    while i < a.len()
        invariant
            a@.len() == b@.len(),
            i <= a@.len(),
            forall|j: int| 0 <= j < i ==> a@[j] == b@[j],
        decreases a@.len() - i,
    {
        if a[i] != b[i] {
            return false;
        }
        i = i + 1;
    }
    assert(a@ =~= b@);
    true
}

impl Index {
    pub closed spec fn wf(&self) -> bool {
        keys_unique(entries_view(self.entries@))
    }

    pub fn new() -> (r: Index)
        ensures
            r.wf(),
            r@ == Map::<Seq<u8>, u64>::empty(),
    {
        let r = Index { entries: Vec::new() };
        assert(entries_view(r.entries@) =~= Seq::<(Seq<u8>, u64)>::empty());
        r
    }

    fn position(&self, key: &[u8]) -> (r: Option<usize>)
        requires
            self.wf(),
        ensures
            r matches Some(i) ==> i < self.entries@.len() && self.entries@[i as int].0@ == key@,
            r is None ==> forall|j: int|
                0 <= j < self.entries@.len() ==> self.entries@[j].0@ != key@,
    {
        let mut i: usize = 0;
        while i < self.entries.len()
            invariant
                i <= self.entries@.len(),
                forall|j: int| 0 <= j < i ==> self.entries@[j].0@ != key@,
            decreases self.entries@.len() - i,
        {
            if bytes_eq(self.entries[i].0.as_slice(), key) {
                return Some(i);
            }
            i = i + 1;
        }
        None
    }

    /// The offset recorded for `key`, if any.
    pub fn lookup(&self, key: &[u8]) -> (r: Option<u64>)
        requires
            self.wf(),
        ensures
            r == (if self@.contains_key(key@) {
                Some(self@[key@])
            } else {
                None::<u64>
            }),
    {
        let ghost s = entries_view(self.entries@);
        proof {
            lemma_entries_map_unique(s);
        }
        match self.position(key) {
            Some(i) => {
                assert(s[i as int].0 == key@);
                Some(self.entries[i].1)
            },
            None => {
                assert(!self@.contains_key(key@)) by {
                    if self@.contains_key(key@) {
                        let j = choose|j: int| 0 <= j < s.len() && s[j].0 == key@;
                        assert(self.entries@[j].0@ == key@);
                    }
                }
                None
            },
        }
    }

    /// Records `pos` as the offset of `key`, replacing any earlier one.
    pub fn insert(&mut self, key: &[u8], pos: u64)
        requires
            old(self).wf(),
        ensures
            final(self).wf(),
            final(self)@ == old(self)@.insert(key@, pos),
    {
        let ghost s = entries_view(self.entries@);
        proof {
            lemma_entries_map_unique(s);
        }
        match self.position(key) {
            Some(i) => {
                let k = slice_to_vec(key);
                self.entries.set(i, (k, pos));
                let ghost t = entries_view(self.entries@);
                assert(t =~= s.update(i as int, (key@, pos)));
                proof {
                    lemma_entries_map_update(s, i as int, key@, pos);
                }
            },
            None => {
                let k = slice_to_vec(key);
                self.entries.push((k, pos));
                let ghost t = entries_view(self.entries@);
                assert(t =~= s.push((key@, pos)));
                assert(t.drop_last() =~= s);
            },
        }
    }

    /// The entries of the index other than `skip`.
    pub fn entries_without(&self, skip: &[u8]) -> (r: Vec<(Vec<u8>, u64)>)
        requires
            self.wf(),
        ensures
            entries_map(entries_view(r@)) == self@.remove(skip@),
            keys_unique(entries_view(r@)),
    {
        let ghost s = entries_view(self.entries@);
        let mut out: Vec<(Vec<u8>, u64)> = Vec::new();
        let mut i: usize = 0;
        assert(entries_map(entries_view(out@)) =~= entries_map(s.take(0)).remove(skip@));
        while i < self.entries.len()
            invariant
                i <= self.entries@.len(),
                s == entries_view(self.entries@),
                entries_map(entries_view(out@)) == entries_map(s.take(i as int)).remove(skip@),
                keys_unique(s),
                keys_unique(entries_view(out@)),
                forall|a: int|
                    0 <= a < out@.len() ==> exists|j: int|
                        0 <= j < i && #[trigger] entries_view(out@)[a].0 == s[j].0,
            decreases self.entries@.len() - i,
        {
            let ghost before = entries_view(out@);
            assert(s.take(i + 1).drop_last() =~= s.take(i as int));
            if !bytes_eq(self.entries[i].0.as_slice(), skip) {
                let k = slice_to_vec(self.entries[i].0.as_slice());
                out.push((k, self.entries[i].1));
                assert(entries_view(out@).drop_last() =~= before);
                let ghost o = entries_view(out@);
                assert forall|a: int| 0 <= a < o.len() - 1 implies #[trigger] o[a].0 != o[o.len() - 1].0 by {
                    assert(o[a] == before[a]);
                    let j = choose|j: int| 0 <= j < i && before[a].0 == s[j].0;
                    assert(s[j].0 != s[i as int].0);
                }
                assert(keys_unique(o)) by {
                    assert forall|a: int, b: int| 0 <= a < b < o.len() implies o[a].0 != o[b].0 by {
                        if b < o.len() - 1 {
                            assert(o[a] == before[a] && o[b] == before[b]);
                        }
                    }
                }
                assert forall|a: int| 0 <= a < o.len() implies exists|j: int|
                    0 <= j < i + 1 && #[trigger] o[a].0 == s[j].0 by {
                    if a < o.len() - 1 {
                        assert(o[a] == before[a]);
                        let j = choose|j: int| 0 <= j < i && before[a].0 == s[j].0;
                        assert(0 <= j < i + 1 && o[a].0 == s[j].0);
                    } else {
                        assert(o[a].0 == s[i as int].0);
                    }
                }
            }
            i = i + 1;
            assert(entries_map(entries_view(out@)) =~= entries_map(s.take(i as int)).remove(skip@));
        }
        assert(s.take(i as int) =~= s);
        out
    }

    /// The index that a list of entries describes; a later entry wins over
    /// an earlier one with the same key.
    pub fn from_entries(v: &Vec<(Vec<u8>, u64)>) -> (r: Index)
        ensures
            r.wf(),
            r@ == entries_map(entries_view(v@)),
    {
        let ghost s = entries_view(v@);
        let mut r = Index::new();
        let mut i: usize = 0;
        assert(s.take(0) =~= Seq::<(Seq<u8>, u64)>::empty());
        while i < v.len()
            invariant
                i <= v@.len(),
                s == entries_view(v@),
                r.wf(),
                r@ == entries_map(s.take(i as int)),
            decreases v@.len() - i,
        {
            assert(s.take(i + 1).drop_last() =~= s.take(i as int));
            r.insert(v[i].0.as_slice(), v[i].1);
            i = i + 1;
        }
        assert(s.take(i as int) =~= s);
        r
    }
}

} // verus!
