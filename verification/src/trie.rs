//! A byte-keyed prefix trie.
//!
//! Escape sequences arrive one byte at a time; the trie answers, for the
//! bytes seen so far, whether they already name a complete key event
//! (`find`), and how far they can be matched (`find_prefix`).

use vstd::prelude::*;

verus! {

/// A trie node: an optional value, and children keyed by one byte each.
pub struct Trie<V> {
    pub value: Option<V>,
    pub children: Vec<(u8, Trie<V>)>,
}

/// The subtree that the first entry with key `k` holds, if any.
pub open spec fn assoc<V>(s: Seq<(u8, Trie<V>)>, k: u8) -> Option<Trie<V>>
    decreases s.len(),
{
    if s.len() == 0 {
        None
    } else if s[0].0 == k {
        Some(s[0].1)
    } else {
        assoc(s.drop_first(), k)
    }
}

proof fn lemma_assoc_at<V>(s: Seq<(u8, Trie<V>)>, k: u8, j: int)
    requires
        0 <= j < s.len(),
        s[j].0 == k,
        forall|m: int| 0 <= m < j ==> (#[trigger] s[m]).0 != k,
    ensures
        assoc(s, k) == Some(s[j].1),
    decreases j,
{
    if j > 0 {
        lemma_assoc_at(s.drop_first(), k, j - 1);
    }
}

proof fn lemma_assoc_none<V>(s: Seq<(u8, Trie<V>)>, k: u8)
    requires
        forall|m: int| 0 <= m < s.len() ==> (#[trigger] s[m]).0 != k,
    ensures
        assoc(s, k) is None,
    decreases s.len(),
{
    if s.len() > 0 {
        lemma_assoc_none(s.drop_first(), k);
    }
}

proof fn lemma_assoc_update_other<V>(s: Seq<(u8, Trie<V>)>, j: int, e: (u8, Trie<V>), x: u8)
    requires
        0 <= j < s.len(),
        s[j].0 == e.0,
        x != e.0,
    ensures
        assoc(s.update(j, e), x) == assoc(s, x),
    decreases s.len(),
{
    let s2 = s.update(j, e);
    if s.len() > 0 {
        if j == 0 {
            assert(s2.drop_first() =~= s.drop_first());
        } else {
            assert(s2.drop_first() =~= s.drop_first().update(j - 1, e));
            lemma_assoc_update_other(s.drop_first(), j - 1, e, x);
        }
    }
}

proof fn lemma_assoc_push<V>(s: Seq<(u8, Trie<V>)>, e: (u8, Trie<V>), x: u8)
    ensures
        assoc(s, x) is Some ==> assoc(s.push(e), x) == assoc(s, x),
        assoc(s, x) is None && e.0 == x ==> assoc(s.push(e), x) == Some(e.1),
        assoc(s, x) is None && e.0 != x ==> assoc(s.push(e), x) is None,
    decreases s.len(),
{
    if s.len() == 0 {
        assert(s.push(e).len() == 1);
        assert(s.push(e)[0] == e);
        assert(s.push(e).drop_first() =~= Seq::<(u8, Trie<V>)>::empty());
        assert(assoc(Seq::<(u8, Trie<V>)>::empty(), x) is None);
    } else {
        assert(s.push(e)[0] == s[0]);
        assert(s.push(e).drop_first() =~= s.drop_first().push(e));
        lemma_assoc_push(s.drop_first(), e, x);
    }
}

impl<V> Trie<V> {
    /// The child reached from this node by byte `k`, if any.
    pub open spec fn child(self, k: u8) -> Option<Trie<V>> {
        assoc(self.children@, k)
    }

    /// The node reached by walking the whole of `path`, if the walk succeeds.
    pub open spec fn node_at(self, path: Seq<u8>) -> Option<Trie<V>>
        decreases path.len(),
    {
        if path.len() == 0 {
            Some(self)
        } else {
            match self.child(path[0]) {
                None => None,
                Some(c) => c.node_at(path.drop_first()),
            }
        }
    }

    /// The value stored at the node that `path` names, if both exist.
    pub open spec fn get(self, path: Seq<u8>) -> Option<V> {
        match self.node_at(path) {
            None => None,
            Some(n) => n.value,
        }
    }

    /// How many leading bytes of `keys` can be walked before the path
    /// leaves the trie.
    pub open spec fn reach_len(self, keys: Seq<u8>) -> int
        decreases keys.len(),
    {
        if keys.len() == 0 {
            0
        } else {
            match self.child(keys[0]) {
                None => 0,
                Some(c) => 1 + c.reach_len(keys.drop_first()),
            }
        }
    }

    /// The value at the deepest node reachable along `keys` — which may be
    /// `None` even when a shallower node on the walk holds a value.
    pub open spec fn prefix_value(self, keys: Seq<u8>) -> Option<V>
        decreases keys.len(),
    {
        if keys.len() == 0 {
            self.value
        } else {
            match self.child(keys[0]) {
                None => self.value,
                Some(c) => c.prefix_value(keys.drop_first()),
            }
        }
    }
}

proof fn lemma_same_children<V>(t1: Trie<V>, t2: Trie<V>)
    requires
        t1.children == t2.children,
    ensures
        forall|p: Seq<u8>| p.len() > 0 ==> #[trigger] t1.node_at(p) == t2.node_at(p),
        forall|p: Seq<u8>| p.len() > 0 ==> #[trigger] t1.get(p) == t2.get(p),
{
    assert forall|p: Seq<u8>| p.len() > 0 implies #[trigger] t1.node_at(p) == t2.node_at(p) by {
        assert(t1.child(p[0]) == t2.child(p[0]));
    }
}

proof fn lemma_path_step<V>(t: Trie<V>, p: Seq<u8>, c: Trie<V>)
    requires
        p.len() > 0,
        t.child(p[0]) == Some(c),
    ensures
        t.node_at(p) == c.node_at(p.drop_first()),
        t.get(p) == c.get(p.drop_first()),
        t.prefix_value(p) == c.prefix_value(p.drop_first()),
        t.reach_len(p) == 1 + c.reach_len(p.drop_first()),
{
}

proof fn lemma_path_none<V>(t: Trie<V>, p: Seq<u8>)
    requires
        p.len() > 0,
        t.child(p[0]) is None,
    ensures
        t.node_at(p) is None,
        t.get(p) is None,
        t.prefix_value(p) == t.value,
        t.reach_len(p) == 0,
{
}

proof fn lemma_eq_step(p: Seq<u8>, q: Seq<u8>)
    requires
        p.len() > 0,
        q.len() > 0,
    ensures
        (p == q) <==> (p[0] == q[0] && p.drop_first() == q.drop_first()),
{
    if p[0] == q[0] && p.drop_first() == q.drop_first() {
        assert(p.drop_first().len() == p.len() - 1);
        assert(q.drop_first().len() == q.len() - 1);
        assert(p.len() == q.len());
        assert forall|m: int| 0 <= m < p.len() implies p[m] == q[m] by {
            if m > 0 {
                assert(p.drop_first()[m - 1] == p[m]);
                assert(q.drop_first()[m - 1] == q[m]);
            }
        }
        assert(p =~= q);
    }
}

proof fn lemma_prefix_step(p: Seq<u8>, q: Seq<u8>)
    requires
        p.len() > 0,
        q.len() > 0,
    ensures
        p.is_prefix_of(q) <==> (p[0] == q[0] && p.drop_first().is_prefix_of(q.drop_first())),
{
    if p[0] == q[0] && p.drop_first().is_prefix_of(q.drop_first()) {
        assert forall|m: int| 0 <= m < p.len() implies p[m] == q.subrange(0, p.len() as int)[m] by {
            if m > 0 {
                assert(p.drop_first()[m - 1] == q.drop_first().subrange(
                    0,
                    p.drop_first().len() as int,
                )[m - 1]);
            }
        }
        assert(p =~= q.subrange(0, p.len() as int));
    }
    if p.is_prefix_of(q) {
        assert forall|m: int|
            0 <= m < p.drop_first().len() implies p.drop_first()[m] == q.drop_first().subrange(
            0,
            p.drop_first().len() as int,
        )[m] by {
            assert(p[m + 1] == q.subrange(0, p.len() as int)[m + 1]);
        }
        assert(p.drop_first() =~= q.drop_first().subrange(0, p.drop_first().len() as int));
    }
}

impl<V: Copy> Trie<V> {
    fn child_index(children: &Vec<(u8, Trie<V>)>, k: u8) -> (r: Option<usize>)
        ensures
            match r {
                Some(j) => j < children@.len() && children@[j as int].0 == k && forall|m: int|
                    0 <= m < j ==> (#[trigger] children@[m]).0 != k,
                None => forall|m: int|
                    0 <= m < children@.len() ==> (#[trigger] children@[m]).0 != k,
            },
    {
        let n = children.len();
        let mut j: usize = 0;
        while j < n
            invariant
                0 <= j <= n,
                n == children@.len(),
                forall|m: int| 0 <= m < j ==> (#[trigger] children@[m]).0 != k,
            decreases n - j,
        {
            if children[j].0 == k {
                return Some(j);
            }
            j = j + 1;
        }
        None
    }

    /// Construct an empty trie.
    pub fn new() -> (t: Trie<V>)
        ensures
            t.value is None,
            t.children@.len() == 0,
            forall|p: Seq<u8>| #[trigger] t.get(p) is None,
            forall|p: Seq<u8>| #[trigger] t.node_at(p) is Some <==> p.len() == 0,
    {
        let t = Trie { value: None, children: Vec::new() };
        proof {
            assert forall|p: Seq<u8>| #[trigger] t.node_at(p) is Some <==> p.len() == 0 by {
                if p.len() != 0 {
                    assert(assoc(t.children@, p[0]) is None);
                }
            }
        }
        t
    }

    #[verifier::loop_isolation(false)]
    fn find_at(&self, keys: &[u8], i: usize) -> (r: Option<V>)
        requires
            i <= keys@.len(),
        ensures
            r == self.get(keys@.skip(i as int)),
        decreases keys@.len() - i,
    {
        let ghost tail = keys@.skip(i as int);
        if i == keys.len() {
            proof {
                assert(tail =~= Seq::<u8>::empty());
            }
            self.value
        } else {
            let k = keys[i];
            proof {
                assert(tail[0] == k);
                assert(tail.drop_first() =~= keys@.skip(i as int + 1));
            }
            match Self::child_index(&self.children, k) {
                Some(j) => {
                    proof {
                        lemma_assoc_at(self.children@, k, j as int);
                    }
                    self.children[j].1.find_at(keys, i + 1)
                },
                None => {
                    proof {
                        lemma_assoc_none(self.children@, k);
                    }
                    None
                },
            }
        }
    }

    fn insert_at(&mut self, keys: &[u8], i: usize, value: V)
        requires
            i <= keys@.len(),
        ensures
            forall|p: Seq<u8>| #[trigger] final(self).get(p) == (if p == keys@.skip(i as int) {
                Some(value)
            } else {
                old(self).get(p)
            }),
            forall|p: Seq<u8>| (#[trigger] final(self).node_at(p) is Some) <==> (old(
                self,
            ).node_at(p) is Some || p.is_prefix_of(keys@.skip(i as int))),
        decreases keys@.len() - i,
    {
        let ghost tail = keys@.skip(i as int);
        if i == keys.len() {
            proof {
                assert(tail =~= Seq::<u8>::empty());
            }
            self.value = Some(value);
            proof {
                lemma_same_children(*old(self), *self);
                assert forall|p: Seq<u8>| #[trigger] self.get(p) == (if p == tail {
                    Some(value)
                } else {
                    old(self).get(p)
                }) by {
                    if p.len() == 0 {
                        assert(p =~= tail);
                    }
                }
                assert forall|p: Seq<u8>|
                    (#[trigger] self.node_at(p) is Some) <==> (old(self).node_at(p) is Some
                        || p.is_prefix_of(tail)) by {
                    if p.len() == 0 {
                        assert(p.is_prefix_of(tail));
                    }
                }
            }
        } else {
            let k = keys[i];
            let ghost tail1 = keys@.skip(i as int + 1);
            proof {
                assert(tail.len() > 0);
                assert(tail[0] == k);
                assert(tail.drop_first() =~= tail1);
            }
            let ghost s = self.children@;
            match Self::child_index(&self.children, k) {
                Some(j) => {
                    let entry = self.children.remove(j);
                    let (kk, mut sub) = entry;
                    let ghost c_old = sub;
                    sub.insert_at(keys, i + 1, value);
                    let ghost c_new = sub;
                    self.children.insert(j, (kk, sub));
                    proof {
                        assert(kk == k);
                        assert(self.children@ =~= s.update(j as int, (k, c_new)));
                        lemma_assoc_at(s, k, j as int);
                        assert forall|m: int|
                            0 <= m < j implies (#[trigger] self.children@[m]).0 != k by {
                            assert(self.children@[m] == s[m]);
                        }
                        lemma_assoc_at(self.children@, k, j as int);
                        assert(old(self).child(k) == Some(c_old));
                        assert(self.child(k) == Some(c_new));
                        assert(self.value == old(self).value);
                        assert forall|p: Seq<u8>| #[trigger] self.get(p) == (if p == tail {
                            Some(value)
                        } else {
                            old(self).get(p)
                        }) by {
                            if p.len() == 0 {
                                assert(p != tail);
                            } else if p[0] == k {
                                lemma_path_step(*self, p, c_new);
                                lemma_path_step(*old(self), p, c_old);
                                lemma_eq_step(p, tail);
                                assert(c_new.get(p.drop_first()) == (if p.drop_first() == tail1 {
                                    Some(value)
                                } else {
                                    c_old.get(p.drop_first())
                                }));
                            } else {
                                lemma_assoc_update_other(s, j as int, (k, c_new), p[0]);
                                assert(self.child(p[0]) == old(self).child(p[0]));
                                assert(p != tail);
                                match old(self).child(p[0]) {
                                    Some(c) => {
                                        lemma_path_step(*self, p, c);
                                        lemma_path_step(*old(self), p, c);
                                    },
                                    None => {
                                        lemma_path_none(*self, p);
                                        lemma_path_none(*old(self), p);
                                    },
                                }
                            }
                        }
                        assert forall|p: Seq<u8>|
                            (#[trigger] self.node_at(p) is Some) <==> (old(self).node_at(p) is Some
                                || p.is_prefix_of(tail)) by {
                            if p.len() == 0 {
                                assert(p.is_prefix_of(tail));
                            } else if p[0] == k {
                                lemma_path_step(*self, p, c_new);
                                lemma_path_step(*old(self), p, c_old);
                                lemma_prefix_step(p, tail);
                                assert((c_new.node_at(p.drop_first()) is Some) <==> (c_old.node_at(
                                    p.drop_first(),
                                ) is Some || p.drop_first().is_prefix_of(tail1)));
                            } else {
                                lemma_assoc_update_other(s, j as int, (k, c_new), p[0]);
                                assert(self.child(p[0]) == old(self).child(p[0]));
                                assert(!p.is_prefix_of(tail));
                                match old(self).child(p[0]) {
                                    Some(c) => {
                                        lemma_path_step(*self, p, c);
                                        lemma_path_step(*old(self), p, c);
                                    },
                                    None => {
                                        lemma_path_none(*self, p);
                                        lemma_path_none(*old(self), p);
                                    },
                                }
                            }
                        }
                    }
                },
                None => {
                    let mut sub: Trie<V> = Trie { value: None, children: Vec::new() };
                    let ghost c0 = sub;
                    sub.insert_at(keys, i + 1, value);
                    let ghost c_new = sub;
                    self.children.push((k, sub));
                    proof {
                        assert(self.children@ == s.push((k, c_new)));
                        lemma_assoc_none(s, k);
                        lemma_assoc_push(s, (k, c_new), k);
                        assert(old(self).child(k) is None);
                        assert(self.child(k) == Some(c_new));
                        assert(self.value == old(self).value);
                        assert forall|q: Seq<u8>| #[trigger] c0.get(q) is None by {
                            if q.len() > 0 {
                                lemma_assoc_none(c0.children@, q[0]);
                                lemma_path_none(c0, q);
                            }
                        }
                        assert forall|q: Seq<u8>| (#[trigger] c0.node_at(q) is Some) <==> q.len()
                            == 0 by {
                            if q.len() > 0 {
                                lemma_assoc_none(c0.children@, q[0]);
                                lemma_path_none(c0, q);
                            }
                        }
                        assert forall|p: Seq<u8>| #[trigger] self.get(p) == (if p == tail {
                            Some(value)
                        } else {
                            old(self).get(p)
                        }) by {
                            if p.len() == 0 {
                                assert(p != tail);
                            } else if p[0] == k {
                                lemma_path_step(*self, p, c_new);
                                lemma_path_none(*old(self), p);
                                lemma_eq_step(p, tail);
                                assert(c_new.get(p.drop_first()) == (if p.drop_first() == tail1 {
                                    Some(value)
                                } else {
                                    c0.get(p.drop_first())
                                }));
                            } else {
                                lemma_assoc_push(s, (k, c_new), p[0]);
                                assert(self.child(p[0]) == old(self).child(p[0]));
                                assert(p != tail);
                                match old(self).child(p[0]) {
                                    Some(c) => {
                                        lemma_path_step(*self, p, c);
                                        lemma_path_step(*old(self), p, c);
                                    },
                                    None => {
                                        lemma_path_none(*self, p);
                                        lemma_path_none(*old(self), p);
                                    },
                                }
                            }
                        }
                        assert forall|p: Seq<u8>|
                            (#[trigger] self.node_at(p) is Some) <==> (old(self).node_at(p) is Some
                                || p.is_prefix_of(tail)) by {
                            if p.len() == 0 {
                                assert(p.is_prefix_of(tail));
                            } else if p[0] == k {
                                lemma_path_step(*self, p, c_new);
                                lemma_path_none(*old(self), p);
                                lemma_prefix_step(p, tail);
                                assert((c_new.node_at(p.drop_first()) is Some) <==> (c0.node_at(
                                    p.drop_first(),
                                ) is Some || p.drop_first().is_prefix_of(tail1)));
                            } else {
                                lemma_assoc_push(s, (k, c_new), p[0]);
                                assert(self.child(p[0]) == old(self).child(p[0]));
                                assert(!p.is_prefix_of(tail));
                                match old(self).child(p[0]) {
                                    Some(c) => {
                                        lemma_path_step(*self, p, c);
                                        lemma_path_step(*old(self), p, c);
                                    },
                                    None => {
                                        lemma_path_none(*self, p);
                                        lemma_path_none(*old(self), p);
                                    },
                                }
                            }
                        }
                    }
                },
            }
        }
    }

    /// Insert `value` at the non-empty key path `keys`, overwriting any
    /// value already stored at exactly that path and leaving every other
    /// path's value as it was.
    pub fn insert(&mut self, keys: &[u8], value: V)
        requires
            keys@.len() > 0,
        ensures
            forall|p: Seq<u8>| #[trigger] final(self).get(p) == (if p == keys@ {
                Some(value)
            } else {
                old(self).get(p)
            }),
            forall|p: Seq<u8>| (#[trigger] final(self).node_at(p) is Some) <==> (old(
                self,
            ).node_at(p) is Some || p.is_prefix_of(keys@)),
    {
        proof {
            assert(keys@.skip(0) =~= keys@);
        }
        self.insert_at(keys, 0, value);
    }

    /// Look up the exact key path `keys`; `None` unless the whole path
    /// exists and its final node holds a value.
    pub fn find(&self, keys: &[u8]) -> (r: Option<V>)
        requires
            keys@.len() > 0,
        ensures
            r == self.get(keys@),
    {
        let r = self.find_at(keys, 0);
        proof {
            assert(keys@.skip(0) =~= keys@);
        }
        r
    }

    fn find_prefix_at(&self, keys: &[u8], i: usize) -> (r: (Option<V>, usize))
        requires
            i <= keys@.len(),
        ensures
            r.0 == self.prefix_value(keys@.skip(i as int)),
            r.1 - i == self.reach_len(keys@.skip(i as int)),
            i <= r.1 <= keys@.len(),
        decreases keys@.len() - i,
    {
        let ghost tail = keys@.skip(i as int);
        if i == keys.len() {
            proof {
                assert(tail =~= Seq::<u8>::empty());
            }
            (self.value, i)
        } else {
            let k = keys[i];
            proof {
                assert(tail.len() > 0);
                assert(tail[0] == k);
                assert(tail.drop_first() =~= keys@.skip(i as int + 1));
            }
            match Self::child_index(&self.children, k) {
                Some(j) => {
                    proof {
                        lemma_assoc_at(self.children@, k, j as int);
                        lemma_path_step(*self, tail, self.children@[j as int].1);
                    }
                    self.children[j].1.find_prefix_at(keys, i + 1)
                },
                None => {
                    proof {
                        lemma_assoc_none(self.children@, k);
                        lemma_path_none(*self, tail);
                    }
                    (self.value, i)
                },
            }
        }
    }

    /// Walk `keys` as far as the trie allows; return the value held by the
    /// deepest node reached (`None` if it holds none) together with the
    /// unconsumed remainder of `keys`.
    pub fn find_prefix(&self, keys: &[u8]) -> (r: (Option<V>, Vec<u8>))
        ensures
            r.0 == self.prefix_value(keys@),
            r.1@ == keys@.skip(self.reach_len(keys@)),
    {
        let (v, l) = self.find_prefix_at(keys, 0);
        proof {
            assert(keys@.skip(0) =~= keys@);
        }
        let rest = vstd::slice::slice_to_vec(vstd::slice::slice_subrange(keys, l, keys.len()));
        (v, rest)
    }
}

/// Construct an empty trie.
#[allow(non_snake_case)]
pub fn Trie<V: Copy>() -> (t: Trie<V>)
    ensures
        t.value is None,
        t.children@.len() == 0,
        forall|p: Seq<u8>| #[trigger] t.get(p) is None,
        forall|p: Seq<u8>| #[trigger] t.node_at(p) is Some <==> p.len() == 0,
{
    Trie::<V>::new()
}

/// The walk that `find_prefix` makes consumes a prefix of `keys` that names
/// a real node of the trie, and it stops only where the next byte has no
/// child: no longer prefix of `keys` names a node.  The value returned is
/// the value stored at that deepest reachable node.
pub proof fn lemma_find_prefix_deepest<V>(t: Trie<V>, keys: Seq<u8>)
    ensures
        0 <= t.reach_len(keys) <= keys.len(),
        t.node_at(keys.take(t.reach_len(keys))) is Some,
        t.prefix_value(keys) == t.get(keys.take(t.reach_len(keys))),
        forall|l: int|
            t.reach_len(keys) < l <= keys.len() ==> #[trigger] t.node_at(keys.take(l)) is None,
    decreases keys.len(),
{
    let r = t.reach_len(keys);
    if keys.len() == 0 {
        assert(keys.take(0) =~= keys);
    } else {
        match t.child(keys[0]) {
            None => {
                assert(keys.take(0) =~= Seq::<u8>::empty());
                lemma_path_none(t, keys);
                assert forall|l: int| 0 < l <= keys.len() implies t.node_at(
                    keys.take(l),
                ) is None by {
                    assert(keys.take(l)[0] == keys[0]);
                    lemma_path_none(t, keys.take(l));
                }
            },
            Some(c) => {
                lemma_path_step(t, keys, c);
                lemma_find_prefix_deepest(c, keys.drop_first());
                let rc = c.reach_len(keys.drop_first());
                assert(r == 1 + rc);
                assert(keys.take(r)[0] == keys[0]);
                assert(keys.take(r).drop_first() =~= keys.drop_first().take(rc));
                lemma_path_step(t, keys.take(r), c);
                assert forall|l: int| r < l <= keys.len() implies t.node_at(
                    keys.take(l),
                ) is None by {
                    assert(keys.take(l)[0] == keys[0]);
                    lemma_path_step(t, keys.take(l), c);
                    assert(keys.take(l).drop_first() =~= keys.drop_first().take(l - 1));
                }
            },
        }
    }
}

/// Every prefix of a path that names a node names a node itself.
pub proof fn lemma_node_at_prefix<V>(t: Trie<V>, p: Seq<u8>, l: int)
    requires
        t.node_at(p) is Some,
        0 <= l <= p.len(),
    ensures
        t.node_at(p.take(l)) is Some,
    decreases p.len(),
{
    if p.len() == 0 || l == 0 {
        assert(p.take(l) =~= Seq::<u8>::empty());
    } else {
        let c = t.child(p[0]).unwrap();
        lemma_path_step(t, p, c);
        lemma_node_at_prefix(c, p.drop_first(), l - 1);
        assert(p.take(l)[0] == p[0]);
        assert(p.take(l).drop_first() =~= p.drop_first().take(l - 1));
        lemma_path_step(t, p.take(l), c);
    }
}

/// When the whole of `p` is a path in the trie, the prefix walk consumes
/// all of it, and the value it reports is the value stored at `p`.
pub proof fn lemma_prefix_value_on_path<V>(t: Trie<V>, p: Seq<u8>)
    requires
        t.node_at(p) is Some,
    ensures
        t.reach_len(p) == p.len(),
        t.prefix_value(p) == t.get(p),
    decreases p.len(),
{
    if p.len() > 0 {
        let c = t.child(p[0]).unwrap();
        lemma_path_step(t, p, c);
        lemma_prefix_value_on_path(c, p.drop_first());
    }
}

} // verus!
