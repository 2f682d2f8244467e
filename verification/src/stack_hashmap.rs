use vstd::prelude::*;
use std::collections::HashMap;
use std::hash::Hash;
use vstd::std_specs::hash::obeys_key_model;

verus! {

broadcast use vstd::std_specs::hash::group_hash_axioms;

/// A stack of hash maps, one per open scope.
#[derive(Debug)]
pub struct StackHashMap<K, V> {
    stack: Vec<HashMap<K, V>>,
}

/// The value of `k` in the first (outermost) frame at or after `i` that holds it.
pub open spec fn lookup_from<K, V>(frames: Seq<Map<K, V>>, k: K, i: int) -> Option<V>
    decreases frames.len() - i,
{
    if i < 0 || i >= frames.len() {
        None
    } else if frames[i].contains_key(k) {
        Some(frames[i][k])
    } else {
        lookup_from(frames, k, i + 1)
    }
}

impl<K, V> StackHashMap<K, V> {
    /// The scopes, outermost first.
    pub closed spec fn frames(&self) -> Seq<Map<K, V>> {
        self.stack@.map_values(|m: HashMap<K, V>| m@)
    }
}

impl<K, V> StackHashMap<K, V> where K: Hash + PartialEq + Eq {
    /// An empty stack without scopes.
    pub fn new() -> (r: Self)
        ensures
            r.frames() == Seq::<Map<K, V>>::empty(),
    {
        let r = StackHashMap { stack: Vec::new() };
        proof {
            assert(r.frames() =~= Seq::<Map<K, V>>::empty());
        }
        r
    }

    /// Opens a new, empty, innermost scope.
    pub fn push(&mut self)
        ensures
            final(self).frames() == old(self).frames().push(Map::<K, V>::empty()),
    {
        self.stack.push(HashMap::new());
        proof {
            assert(self.frames() =~= old(self).frames().push(Map::<K, V>::empty()));
        }
    }

    /// Closes the innermost scope, if any.
    pub fn pop(&mut self)
        ensures
            old(self).frames().len() > 0 ==> final(self).frames() == old(self).frames().drop_last(),
            old(self).frames().len() == 0 ==> final(self).frames() == old(self).frames(),
    {
        self.stack.pop();
        proof {
            if old(self).frames().len() > 0 {
                assert(self.frames() =~= old(self).frames().drop_last());
            } else {
                assert(self.frames() =~= old(self).frames());
            }
        }
    }

    /// Binds `k` to `v` in the innermost scope; returns the value `k` had there.
    pub fn insert(&mut self, k: K, v: V) -> (r: Option<V>)
        requires
            old(self).frames().len() > 0,
        ensures
            obeys_key_model::<K>() ==> {
                let last = old(self).frames().last();
                &&& final(self).frames() == old(self).frames().update(old(self).frames().len() - 1, last.insert(k, v))
                &&& r == (if last.contains_key(k) { Some(last[k]) } else { None })
            },
    {
        let mut top = self.stack.pop().unwrap();
        let r = top.insert(k, v);
        self.stack.push(top);
        proof {
            if obeys_key_model::<K>() {
                let last = old(self).frames().last();
                assert(self.frames() =~= old(self).frames().update(old(self).frames().len() - 1, last.insert(k, v)));
            }
        }
        r
    }

    /// The value of `k` in the outermost scope that binds it.
    pub fn get(&self, k: &K) -> (r: Option<&V>)
        ensures
            obeys_key_model::<K>() ==> r == (match lookup_from(self.frames(), *k, 0) {
                Some(v) => Some(&v),
                None => None,
            }),
    {
        let mut i: usize = 0;
        while i < self.stack.len()
            invariant
                i <= self.stack.len(),
                obeys_key_model::<K>() ==> lookup_from(self.frames(), *k, 0) == lookup_from(self.frames(), *k, i as int),
            decreases self.stack.len() - i,
        {
            if let Some(result) = self.stack[i].get(k) {
                proof {
                    assert(self.frames()[i as int] == self.stack@[i as int]@);
                }
                return Some(result);
            }
            proof {
                assert(self.frames()[i as int] == self.stack@[i as int]@);
            }
            i = i + 1;
        }
        None
    }
}

/// A binding made in a new innermost scope is what `get` finds, unless an
/// outer scope binds the same key.
pub proof fn law_insert_then_get<K, V>(frames: Seq<Map<K, V>>, k: K, v: V)
    requires
        lookup_from(frames, k, 0) is None,
    ensures
        lookup_from(frames.push(Map::<K, V>::empty().insert(k, v)), k, 0) == Some(v),
{
    lemma_lookup_push(frames, Map::<K, V>::empty().insert(k, v), k, 0);
}

/// Opening a scope and closing it again leaves the scopes as they were.
pub proof fn law_push_then_pop<K, V>(frames: Seq<Map<K, V>>)
    ensures
        frames.push(Map::<K, V>::empty()).drop_last() == frames,
{
    assert(frames.push(Map::<K, V>::empty()).drop_last() =~= frames);
}

/// The scopes after binding each key of `kvs` to its value, in order, in
/// the innermost scope (what a run of `insert` calls does).
pub open spec fn insert_all<K, V>(frames: Seq<Map<K, V>>, kvs: Seq<(K, V)>) -> Seq<Map<K, V>>
    decreases kvs.len(),
{
    if kvs.len() == 0 || frames.len() == 0 {
        frames
    } else {
        let f = insert_all(frames, kvs.drop_last());
        f.update(f.len() - 1, f.last().insert(kvs.last().0, kvs.last().1))
    }
}

proof fn lemma_insert_all_outer<K, V>(frames: Seq<Map<K, V>>, kvs: Seq<(K, V)>)
    requires
        frames.len() > 0,
    ensures
        insert_all(frames, kvs).len() == frames.len(),
        insert_all(frames, kvs).drop_last() == frames.drop_last(),
    decreases kvs.len(),
{
    if kvs.len() > 0 {
        lemma_insert_all_outer(frames, kvs.drop_last());
        let f = insert_all(frames, kvs.drop_last());
        assert(f.update(f.len() - 1, f.last().insert(kvs.last().0, kvs.last().1)).drop_last() =~= f.drop_last());
    }
}

/// Opening a scope, binding any keys in it and closing it again leaves the
/// outer scopes as they were.
pub proof fn law_scope_restores<K, V>(frames: Seq<Map<K, V>>, kvs: Seq<(K, V)>)
    ensures
        insert_all(frames.push(Map::<K, V>::empty()), kvs).drop_last() == frames,
{
    lemma_insert_all_outer(frames.push(Map::<K, V>::empty()), kvs);
    assert(frames.push(Map::<K, V>::empty()).drop_last() =~= frames);
}

proof fn lemma_lookup_push<K, V>(frames: Seq<Map<K, V>>, m: Map<K, V>, k: K, i: int)
    requires
        0 <= i <= frames.len(),
        lookup_from(frames, k, i) is None,
        m.contains_key(k),
    ensures
        lookup_from(frames.push(m), k, i) == Some(m[k]),
    decreases frames.len() - i,
{
    if i < frames.len() {
        assert(frames.push(m)[i] == frames[i]);
        lemma_lookup_push(frames, m, k, i + 1);
    } else {
        assert(frames.push(m)[i] == m);
    }
}

} // verus!
