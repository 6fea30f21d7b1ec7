//! The local part of the DHT: identifier-keyed records.

use crate::data::{DataView, KademliaData};
use crate::node_id::NodeId;
use vstd::prelude::*;

verus! {

/// The map that a list of entries denotes, later entries overriding earlier ones.
pub open spec fn entries_map(s: Seq<(NodeId, KademliaData)>) -> Map<Seq<u8>, DataView>
    decreases s.len(),
{
    if s.len() == 0 {
        Map::empty()
    } else {
        entries_map(s.drop_last()).insert(s.last().0.0@, s.last().1.view())
    }
}

/// No key occurs twice.
pub open spec fn unique_keys(s: Seq<(NodeId, KademliaData)>) -> bool {
    forall|i: int, j: int| 0 <= i < s.len() && 0 <= j < s.len() && i != j ==> s[i].0.0@ != s[j].0.0@
}

proof fn lemma_entries_map_dom(s: Seq<(NodeId, KademliaData)>, k: Seq<u8>)
    ensures
        entries_map(s).contains_key(k) <==> exists|i: int| 0 <= i < s.len() && s[i].0.0@ == k,
    decreases s.len(),
{
    if s.len() > 0 {
        lemma_entries_map_dom(s.drop_last(), k);
        if exists|i: int| 0 <= i < s.drop_last().len() && s.drop_last()[i].0.0@ == k {
            let i = choose|i: int| 0 <= i < s.drop_last().len() && s.drop_last()[i].0.0@ == k;
            assert(s[i].0.0@ == k);
        }
        if exists|i: int| 0 <= i < s.len() && s[i].0.0@ == k {
            let i = choose|i: int| 0 <= i < s.len() && s[i].0.0@ == k;
            if i < s.len() - 1 {
                assert(s.drop_last()[i].0.0@ == k);
            }
        }
    }
}

proof fn lemma_entries_map_value(s: Seq<(NodeId, KademliaData)>, i: int)
    requires
        unique_keys(s),
        0 <= i < s.len(),
    ensures
        entries_map(s).contains_key(s[i].0.0@),
        entries_map(s)[s[i].0.0@] == s[i].1.view(),
    decreases s.len(),
{
    if i < s.len() - 1 {
        lemma_entries_map_value(s.drop_last(), i);
        assert(s.last().0.0@ != s[i].0.0@);
    }
}

proof fn lemma_entries_map_update(s: Seq<(NodeId, KademliaData)>, i: int, e: (NodeId, KademliaData))
    requires
        unique_keys(s),
        0 <= i < s.len(),
        s[i].0.0@ == e.0.0@,
    ensures
        entries_map(s.update(i, e)) == entries_map(s).insert(e.0.0@, e.1.view()),
    decreases s.len(),
{
    let t = s.update(i, e);
    if i == s.len() - 1 {
        assert(t.drop_last() =~= s.drop_last());
        assert(entries_map(s).insert(e.0.0@, e.1.view()) =~= entries_map(s.drop_last()).insert(e.0.0@, e.1.view()));
    } else {
        lemma_entries_map_update(s.drop_last(), i, e);
        assert(t.drop_last() =~= s.drop_last().update(i, e));
        assert(s.last().0.0@ != e.0.0@);
        assert(entries_map(t) =~= entries_map(s).insert(e.0.0@, e.1.view()));
    }
}

proof fn lemma_entries_map_remove(s: Seq<(NodeId, KademliaData)>, i: int)
    requires
        unique_keys(s),
        0 <= i < s.len(),
    ensures
        entries_map(s.remove(i)) == entries_map(s).remove(s[i].0.0@),
    decreases s.len(),
{
    let k = s[i].0.0@;
    let t = s.remove(i);
    if i == s.len() - 1 {
        assert(t =~= s.drop_last());
        lemma_entries_map_dom(s.drop_last(), k);
        assert(!entries_map(s.drop_last()).contains_key(k));
        assert(entries_map(s).remove(k) =~= entries_map(s.drop_last()));
    } else {
        lemma_entries_map_remove(s.drop_last(), i);
        assert(t.drop_last() =~= s.drop_last().remove(i));
        assert(t.last() == s.last());
        assert(s.last().0.0@ != k);
        assert(entries_map(t) =~= entries_map(s).remove(k));
    }
}

proof fn lemma_entries_map_same(s1: Seq<(NodeId, KademliaData)>, s2: Seq<(NodeId, KademliaData)>)
    requires
        s1.len() == s2.len(),
        forall|i: int| 0 <= i < s1.len() ==> (#[trigger] s1[i]).0 == s2[i].0 && s1[i].1.view() == s2[i].1.view(),
    ensures
        entries_map(s1) == entries_map(s2),
    decreases s1.len(),
{
    if s1.len() > 0 {
        lemma_entries_map_same(s1.drop_last(), s2.drop_last());
    }
}

/// The records a node holds, keyed by identifier.
#[derive(Debug)]
pub struct DhtTable {
    pub entries: Vec<(NodeId, KademliaData)>,
}

impl DhtTable {
    pub open spec fn view(&self) -> Map<Seq<u8>, DataView> {
        entries_map(self.entries@)
    }

    pub open spec fn wf(&self) -> bool {
        unique_keys(self.entries@)
    }

    pub fn new() -> (r: DhtTable)
        ensures
            r.wf(),
            r.view() == Map::<Seq<u8>, DataView>::empty(),
    {
        DhtTable { entries: Vec::new() }
    }

    fn position(&self, key: &NodeId) -> (r: Option<usize>)
        ensures
            r matches Some(p) ==> p < self.entries@.len() && self.entries@[p as int].0.0@ == key.0@,
            r is None ==> forall|i: int| 0 <= i < self.entries@.len() ==> (#[trigger] self.entries@[i]).0.0@ != key.0@,
    {
        let mut i: usize = 0;
        while i < self.entries.len()
            invariant
                i <= self.entries@.len(),
                forall|j: int| 0 <= j < i ==> (#[trigger] self.entries@[j]).0.0@ != key.0@,
            decreases self.entries@.len() - i,
        {
            if self.entries[i].0 == *key {
                return Some(i);
            }
            i = i + 1;
        }
        None
    }

    pub fn contains_key(&self, key: &NodeId) -> (r: bool)
        requires
            self.wf(),
        ensures
            r == self.view().contains_key(key.0@),
    {
        proof {
            lemma_entries_map_dom(self.entries@, key.0@);
        }
        self.position(key).is_some()
    }

    /// The value stored under `key`.
    pub fn get(&self, key: &NodeId) -> (r: Option<&KademliaData>)
        requires
            self.wf(),
        ensures
            r is None <==> !self.view().contains_key(key.0@),
            r matches Some(v) ==> v.view() == self.view()[key.0@],
    {
        proof {
            lemma_entries_map_dom(self.entries@, key.0@);
        }
        match self.position(key) {
            Some(p) => {
                proof {
                    lemma_entries_map_value(self.entries@, p as int);
                }
                Some(&self.entries[p].1)
            },
            None => None,
        }
    }

    /// Stores `value` under `key`, replacing what was there.
    pub fn insert(&mut self, key: NodeId, value: KademliaData)
        requires
            old(self).wf(),
        ensures
            final(self).wf(),
            final(self).view() == old(self).view().insert(key.0@, value.view()),
    {
        match self.position(&key) {
            Some(p) => {
                proof {
                    lemma_entries_map_update(self.entries@, p as int, (key, value));
                }
                self.entries.set(p, (key, value));
            },
            None => {
                self.entries.push((key, value));
                assert(self.entries@.drop_last() =~= old(self).entries@);
            },
        }
    }

    /// Removes and returns the value stored under `key`.
    pub fn remove(&mut self, key: &NodeId) -> (r: Option<KademliaData>)
        requires
            old(self).wf(),
        ensures
            final(self).wf(),
            final(self).view() == old(self).view().remove(key.0@),
            r is None <==> !old(self).view().contains_key(key.0@),
            r matches Some(v) ==> v.view() == old(self).view()[key.0@],
    {
        proof {
            lemma_entries_map_dom(self.entries@, key.0@);
        }
        match self.position(key) {
            Some(p) => {
                proof {
                    lemma_entries_map_value(self.entries@, p as int);
                    lemma_entries_map_remove(self.entries@, p as int);
                }
                let (_, value) = self.entries.remove(p);
                Some(value)
            },
            None => {
                assert(old(self).view().remove(key.0@) =~= old(self).view());
                None
            },
        }
    }

    /// A copy holding the same records.
    pub fn duplicate(&self) -> (r: DhtTable)
        requires
            self.wf(),
        ensures
            r.wf(),
            r.view() == self.view(),
    {
        let mut entries: Vec<(NodeId, KademliaData)> = Vec::new();
        let mut i: usize = 0;
        while i < self.entries.len()
            invariant
                i <= self.entries@.len(),
                entries@.len() == i,
                forall|j: int| 0 <= j < i ==> (#[trigger] entries@[j]).0 == self.entries@[j].0
                    && entries@[j].1.view() == self.entries@[j].1.view(),
            decreases self.entries@.len() - i,
        {
            let key = self.entries[i].0;
            let value = self.entries[i].1.clone();
            entries.push((key, value));
            i = i + 1;
        }
        proof {
            lemma_entries_map_same(entries@, self.entries@);
        }
        DhtTable { entries }
    }

    pub fn len(&self) -> (r: usize)
        ensures
            r == self.entries@.len(),
    {
        self.entries.len()
    }
}

} // verus!
