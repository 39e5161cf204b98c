//! The tag index: for each tag name, the handle of the tag's node.

use vstd::prelude::*;
use vstd::hash_map::StringHashMap;
use crate::text::views;

verus! {

/// The index from tag names to node handles: a hash map for looking a name
/// up, and beside it the list of the names, for listing them.
pub struct TagIndex {
    map: StringHashMap<u32>,
    names: Vec<String>,
}

impl View for TagIndex {
    type V = Map<Seq<char>, u32>;

    closed spec fn view(&self) -> Map<Seq<char>, u32> {
        self.map@
    }
}

impl TagIndex {
    /// The list holds the names of the map, each once.
    pub closed spec fn wf(&self) -> bool {
        &&& views(self.names@).no_duplicates()
        &&& views(self.names@).to_set() == self.map@.dom()
    }

    /// An index without names.
    pub fn new() -> (r: Self)
        ensures
            r.wf(),
            r@ == Map::<Seq<char>, u32>::empty(),
    {
        let r = TagIndex { map: StringHashMap::new(), names: Vec::new() };
        proof {
            assert(views(r.names@).to_set() =~= r.map@.dom());
        }
        r
    }

    /// The number of names in the index.
    pub fn len(&self) -> (n: usize)
        requires
            self.wf(),
        ensures
            self@.dom().finite(),
            n == self@.dom().len(),
    {
        proof {
            views(self.names@).unique_seq_to_set();
            vstd::seq_lib::seq_to_set_is_finite(views(self.names@));
        }
        self.names.len()
    }

    /// The handle that stands under `name`, if the index holds the name.
    pub fn get(&self, name: &String) -> (r: Option<u32>)
        requires
            self.wf(),
        ensures
            r == (if self@.contains_key(name@) {
                Some(self@[name@])
            } else {
                None
            }),
    {
        match self.map.get(name.as_str()) {
            Some(node) => Some(*node),
            None => None,
        }
    }

    /// Whether the index holds `name`.
    pub fn contains_key(&self, name: &String) -> (r: bool)
        requires
            self.wf(),
        ensures
            r == self@.contains_key(name@),
    {
        self.map.contains_key(name.as_str())
    }

    /// Puts `node` under `name`, in place of what stood there.
    pub fn insert(&mut self, name: String, node: u32)
        requires
            old(self).wf(),
        ensures
            final(self).wf(),
            final(self)@ == old(self)@.insert(name@, node),
    {
        let ghost before = views(self.names@);
        let ghost key = name@;
        if !self.map.contains_key(name.as_str()) {
            self.names.push(name.clone());
            proof {
                assert(views(self.names@) =~= before.push(key));
                assert(!before.contains(key)) by {
                    assert(before.to_set().contains(key) <==> before.contains(key));
                }
                assert forall|k: Seq<char>| before.push(key).to_set().contains(k)
                    <==> before.to_set().insert(key).contains(k) by {
                    vstd::seq_lib::lemma_seq_contains_after_push(before, key, k);
                }
                assert(before.push(key).to_set() =~= before.to_set().insert(key));
                assert forall|i: int, j: int| 0 <= i < j < before.push(key).len() implies before.push(
                    key,
                )[i] != before.push(key)[j] by {
                    if j == before.len() {
                        assert(before.contains(before[i]));
                    }
                }
            }
        } else {
            proof {
                assert(before.to_set().insert(key) =~= before.to_set());
            }
        }
        self.map.insert(name, node);
        proof {
            assert(self.map@.dom() =~= old(self).map@.dom().insert(key));
        }
    }

    /// Takes `name` out of the index and returns the handle that stood under
    /// it, if the index held the name.
    pub fn remove(&mut self, name: &String) -> (r: Option<u32>)
        requires
            old(self).wf(),
        ensures
            final(self).wf(),
            final(self)@ == old(self)@.remove(name@),
            r == (if old(self)@.contains_key(name@) {
                Some(old(self)@[name@])
            } else {
                None
            }),
    {
        let ghost before = views(self.names@);
        let r = self.get(name);
        if r.is_none() {
            proof {
                assert(self.map@.remove(name@) =~= self.map@);
            }
            return None;
        }
        self.map.remove(name.as_str());
        let mut i: usize = 0;
        while i < self.names.len() && self.names[i] != *name
            invariant
                i <= self.names@.len(),
                before == views(self.names@),
                forall|j: int| 0 <= j < i ==> before[j] != name@,
            decreases self.names@.len() - i,
        {
            i += 1;
        }
        proof {
            assert(before.to_set().contains(name@));
            assert(before.contains(name@));
            let j = choose|j: int| 0 <= j < before.len() && before[j] == name@;
            assert(i < before.len());
            assert(before[i as int] == name@);
        }
        self.names.remove(i);
        proof {
            let now = views(self.names@);
            assert(now =~= before.remove(i as int));
            assert forall|a: int, b: int| 0 <= a < b < now.len() implies now[a] != now[b] by {
                let a0 = if a < i { a } else { a + 1 };
                let b0 = if b < i { b } else { b + 1 };
                assert(now[a] == before[a0] && now[b] == before[b0]);
            }
            assert forall|k: Seq<char>| now.to_set().contains(k) <==> before.to_set().remove(
                name@,
            ).contains(k) by {
                if now.contains(k) {
                    let a = choose|a: int| 0 <= a < now.len() && now[a] == k;
                    let a0 = if a < i { a } else { a + 1 };
                    assert(before[a0] == k);
                    assert(before.contains(k));
                }
                if before.contains(k) && k != name@ {
                    let a0 = choose|a0: int| 0 <= a0 < before.len() && before[a0] == k;
                    let a = if a0 < i { a0 } else { a0 - 1 };
                    assert(now[a] == k);
                }
            }
            assert(now.to_set() =~= before.to_set().remove(name@));
            assert(self.map@.dom() =~= old(self).map@.dom().remove(name@));
        }
        r
    }

    /// The names in the index, each once, in no particular order.
    pub fn keys(&self) -> (r: Vec<String>)
        requires
            self.wf(),
        ensures
            views(r@).no_duplicates(),
            views(r@).to_set() == self@.dom(),
    {
        let mut r: Vec<String> = Vec::new();
        let mut i: usize = 0;
        while i < self.names.len()
            invariant
                i <= self.names@.len(),
                r@.len() == i,
                forall|j: int| 0 <= j < i ==> r@[j]@ == self.names@[j]@,
            decreases self.names@.len() - i,
        {
            r.push(self.names[i].clone());
            i += 1;
        }
        proof {
            assert(views(r@) =~= views(self.names@));
        }
        r
    }
}

} // verus!
