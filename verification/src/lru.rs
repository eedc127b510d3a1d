//! A small cache that forgets what has not been used for longest.
use vstd::hash_map::StringHashMap;
use vstd::prelude::*;

use crate::text;
use crate::text::same_text;

verus! {

/// Values by path, with the order in which the paths were used.
#[verifier::reject_recursive_types(T)]
pub struct LruCache<T> {
    cache: StringHashMap<T>,
    order: Vec<String>,
    capacity: usize,
}

/// The paths of an order of use without one of them.
pub open spec fn without(order: Seq<Seq<char>>, path: Seq<char>) -> Seq<Seq<char>>
    decreases order.len(),
{
    if order.len() == 0 {
        order
    } else {
        let rest = without(order.drop_last(), path);
        if order.last() == path {
            rest
        } else {
            rest.push(order.last())
        }
    }
}

/// The paths of an order of use that are not this one.
pub open spec fn others(order: Seq<Seq<char>>, path: Seq<char>) -> Seq<Seq<char>> {
    order.filter(|used: Seq<char>| used != path)
}

/// The values without those of some paths.
pub open spec fn forget<T>(map: Map<Seq<char>, T>, paths: Seq<Seq<char>>) -> Map<Seq<char>, T>
    decreases paths.len(),
{
    if paths.len() == 0 {
        map
    } else {
        forget(map, paths.drop_last()).remove(paths.last())
    }
}

/// How many paths have to go so that one more fits.
pub open spec fn excess(used: nat, capacity: nat) -> int {
    if used < capacity {
        0
    } else {
        used + 1 - capacity
    }
}

pub proof fn lemma_without(order: Seq<Seq<char>>, path: Seq<char>)
    ensures
        without(order, path).len() <= order.len(),
        forall|x: Seq<char>|
            #![trigger without(order, path).contains(x)]
            without(order, path).contains(x) <==> order.contains(x) && x != path,
        order.contains(path) ==> without(order, path).len() < order.len(),
    decreases order.len(),
{
    if order.len() > 0 {
        let init = order.drop_last();
        lemma_without(init, path);
        assert(order =~= init.push(order.last()));
        assert forall|x: Seq<char>|
            #![trigger without(order, path).contains(x)]
            without(order, path).contains(x) <==> order.contains(x) && x != path by {
            let rest = without(init, path);
            if order.contains(x) && x != path {
                let k = choose|k: int| 0 <= k < order.len() && order[k] == x;
                if k < init.len() {
                    assert(init[k] == x);
                    assert(rest.contains(x));
                    let m = choose|m: int| 0 <= m < rest.len() && rest[m] == x;
                    assert(without(order, path)[m] == x);
                } else {
                    assert(without(order, path).last() == x);
                }
            }
            if without(order, path).contains(x) {
                let m = choose|m: int|
                    0 <= m < without(order, path).len() && without(order, path)[m] == x;
                if m < rest.len() {
                    assert(rest[m] == x);
                    assert(rest.contains(x));
                    assert(init.contains(x));
                    let k = choose|k: int| 0 <= k < init.len() && init[k] == x;
                    assert(order[k] == x);
                } else {
                    assert(order.last() == x);
                }
            }
        }
        if order.contains(path) && order.last() != path {
            let k = choose|k: int| 0 <= k < order.len() && order[k] == path;
            assert(init[k] == path);
        }
    }
}

pub proof fn lemma_forget<T>(map: Map<Seq<char>, T>, paths: Seq<Seq<char>>, key: Seq<char>)
    ensures
        forget(map, paths).contains_key(key) <==> map.contains_key(key) && !paths.contains(key),
        forget(map, paths).contains_key(key) ==> forget(map, paths)[key] == map[key],
    decreases paths.len(),
{
    if paths.len() > 0 {
        let init = paths.drop_last();
        lemma_forget(map, init, key);
        assert(paths =~= init.push(paths.last()));
        if init.contains(key) {
            let k = choose|k: int| 0 <= k < init.len() && init[k] == key;
            assert(paths[k] == key);
        }
        if paths.contains(key) && key != paths.last() {
            let k = choose|k: int| 0 <= k < paths.len() && paths[k] == key;
            assert(init[k] == key);
        }
    }
}

impl<T> LruCache<T> {
    /// The values, by path.
    pub closed spec fn values(&self) -> Map<Seq<char>, T> {
        self.cache@
    }

    /// The paths in the order of their use, the latest last.
    pub closed spec fn used(&self) -> Seq<Seq<char>> {
        text::text_views(self.order@)
    }

    /// How many paths are remembered at most.
    pub closed spec fn limit(&self) -> nat {
        self.capacity as nat
    }

    /// Whether every value has a path in the order of use, and there are no more
    /// of these than the limit.
    pub open spec fn wf(&self) -> bool {
        &&& self.used().len() <= self.limit()
        &&& forall|key: Seq<char>| #[trigger]
            self.values().contains_key(key) ==> self.used().contains(key)
    }

    /// An empty cache for a number of values.
    pub fn new(capacity: usize) -> (r: Self)
        ensures
            r.wf(),
            r.values() == Map::<Seq<char>, T>::empty(),
            r.used() == Seq::<Seq<char>>::empty(),
            r.limit() == capacity,
    {
        let r = LruCache { cache: StringHashMap::new(), order: Vec::new(), capacity };
        proof {
            assert(r.used() =~= Seq::<Seq<char>>::empty());
        }
        r
    }

    /// Drops a path from the order of use.
    fn forget_use(&mut self, path: &str)
        ensures
            final(self).values() == old(self).values(),
            final(self).limit() == old(self).limit(),
            final(self).used() == without(old(self).used(), path@),
    {
        let ghost all = self.used();
        let mut kept: Vec<String> = Vec::new();
        let mut i: usize = 0;
        proof {
            assert(text::text_views(kept@) =~= Seq::<Seq<char>>::empty());
        }
        while i < self.order.len()
            invariant
                i <= self.order@.len(),
                *self == *old(self),
                all == self.used(),
                text::text_views(kept@) == without(all.take(i as int), path@),
            decreases self.order.len() - i,
        {
            proof {
                assert(all.take(i + 1).drop_last() =~= all.take(i as int));
            }
            let ghost before = kept@;
            if !same_text(self.order[i].as_str(), path) {
                kept.push(self.order[i].clone());
                proof {
                    assert(text::text_views(kept@) =~= text::text_views(before).push(
                        all[i as int],
                    ));
                }
            }
            i += 1;
        }
        proof {
            assert(all.take(all.len() as int) =~= all);
        }
        self.order = kept;
    }

    /// Whether a path is there. It does not count as use.
    pub fn has(&self, path: &str) -> (r: bool)
        ensures
            r == self.values().contains_key(path@),
    {
        self.cache.contains_key(path)
    }

    /// Looks a path up. If it is there, it becomes the latest one used.
    pub fn get(&mut self, path: &str) -> (r: Option<&T>)
        requires
            old(self).wf(),
        ensures
            final(self).wf(),
            final(self).values() == old(self).values(),
            final(self).limit() == old(self).limit(),
            match r {
                Some(v) => old(self).values().contains_key(path@) && *v == old(self).values()[path@]
                    && final(self).used() == without(old(self).used(), path@).push(path@),
                None => !old(self).values().contains_key(path@) && final(self).used() == old(
                    self,
                ).used(),
            },
            r is Some ==> final(self).used().last() == path@,
            r is Some ==> final(self).used().drop_last() == others(old(self).used(), path@),
    {
        if self.cache.contains_key(path) {
            let ghost before = self.used();
            proof {
                lemma_without(before, path@);
                lemma_without_is_rest(before, path@);
            }
            self.forget_use(path);
            let ghost kept = self.used();
            self.order.push(path.to_owned());
            proof {
                assert(self.used() =~= kept.push(path@));
                assert(self.used().drop_last() =~= kept);
                assert forall|key: Seq<char>| #[trigger]
                    self.values().contains_key(key) implies self.used().contains(key) by {
                    assert(before.contains(key));
                    if key == path@ {
                        assert(self.used().last() == key);
                    } else {
                        assert(kept.contains(key));
                        let k = choose|k: int| 0 <= k < kept.len() && kept[k] == key;
                        assert(self.used()[k] == key);
                    }
                }
            }
            self.cache.get(path)
        } else {
            None
        }
    }

    /// Adds a value, as the latest one used. As many of the paths that have not
    /// been used for longest go, with their values, as have to for it to fit.
    pub fn insert(&mut self, path: String, value: T)
        requires
            old(self).wf(),
            old(self).limit() > 0,
        ensures
            final(self).wf(),
            final(self).limit() == old(self).limit(),
            ({
                let n = excess(old(self).used().len(), old(self).limit());
                &&& final(self).used() == old(self).used().skip(n).push(path@)
                &&& final(self).values() == forget(
                    old(self).values(),
                    old(self).used().take(n),
                ).insert(path@, value)
            }),
            final(self).used().last() == path@,
            final(self).values().contains_key(path@) && final(self).values()[path@] == value,
            forall|key: Seq<char>|
                #![trigger final(self).values().contains_key(key)]
                key != path@ ==> if old(self).used().len() == old(self).limit() && key == old(
                    self,
                ).used()[0] {
                    !final(self).values().contains_key(key)
                } else {
                    &&& final(self).values().contains_key(key) == old(self).values().contains_key(
                        key,
                    )
                    &&& old(self).values().contains_key(key) ==> final(self).values()[key] == old(
                        self,
                    ).values()[key]
                },
    {
        let ghost used = self.used();
        let ghost values = self.values();
        let ghost mut n: int = 0;
        proof {
            assert(used.skip(0) =~= used);
            assert(used.take(0) =~= Seq::<Seq<char>>::empty());
        }
        while self.order.len() >= self.capacity
            invariant
                self.capacity == old(self).capacity,
                self.capacity > 0,
                used.len() <= self.capacity,
                0 <= n <= used.len(),
                n <= excess(used.len(), self.capacity as nat),
                self.used() == used.skip(n),
                self.values() == forget(values, used.take(n)),
            decreases self.order.len(),
        {
            let ghost before = self.order@;
            proof {
                assert(self.used().len() == self.order@.len());
            }
            let oldest = self.order.remove(0);
            self.cache.remove(oldest.as_str());
            proof {
                assert(used.take(n + 1).drop_last() =~= used.take(n));
                assert(oldest@ == used.skip(n)[0]);
                assert(self.order@ =~= before.remove(0));
                assert forall|i: int| 0 <= i < self.used().len() implies self.used()[i]
                    == used.skip(n + 1)[i] by {
                    assert(self.order@[i] == before[i + 1]);
                    assert(text::text_views(before)[i + 1] == used.skip(n)[i + 1]);
                }
                assert(self.used() =~= used.skip(n + 1));
                n = n + 1;
            }
        }
        let ghost kept = self.used();
        let key = path.clone();
        self.order.push(key);
        self.cache.insert(path, value);
        proof {
            assert(n == excess(used.len(), self.capacity as nat));
            assert(self.used() =~= kept.push(path@));
            assert(n == 0 || n == 1);
            assert forall|key: Seq<char>|
                #![trigger self.values().contains_key(key)]
                key != path@ implies if used.len() == self.capacity && key == used[0] {
                !self.values().contains_key(key)
            } else {
                &&& self.values().contains_key(key) == values.contains_key(key)
                &&& values.contains_key(key) ==> self.values()[key] == values[key]
            } by {
                lemma_forget(values, used.take(n), key);
                if n == 1 {
                    assert(used.take(n)[0] == used[0]);
                }
            }
            assert forall|k: Seq<char>| #[trigger]
                self.values().contains_key(k) implies self.used().contains(k) by {
                if k == path@ {
                    assert(self.used().last() == k);
                } else {
                    lemma_forget(values, used.take(n), k);
                    assert(used.contains(k));
                    let i = choose|i: int| 0 <= i < used.len() && used[i] == k;
                    if i < n {
                        assert(used.take(n)[i] == k);
                    } else {
                        assert(used.skip(n)[i - n] == k);
                        assert(self.used()[i - n] == k);
                    }
                }
            }
        }
    }

    /// Forgets everything.
    pub fn clear(&mut self)
        ensures
            final(self).wf(),
            final(self).limit() == old(self).limit(),
            final(self).values() == Map::<Seq<char>, T>::empty(),
            final(self).used() == Seq::<Seq<char>>::empty(),
    {
        self.cache.clear();
        self.order.clear();
        proof {
            assert(self.used() =~= Seq::<Seq<char>>::empty());
        }
    }
}

/// To take a path out of an order of use leaves the others, in their order.
pub proof fn lemma_without_is_rest(order: Seq<Seq<char>>, path: Seq<char>)
    ensures
        without(order, path) == others(order, path),
    decreases order.len(),
{
    reveal(Seq::filter);
    if order.len() > 0 {
        lemma_without_is_rest(order.drop_last(), path);
    } else {
        assert(others(order, path) =~= order);
    }
}

/// Of the values, those of the paths that go are forgotten, and no others.
pub proof fn lemma_forget_only_those<T>(map: Map<Seq<char>, T>, paths: Seq<Seq<char>>)
    ensures
        forget(map, paths) == map.remove_keys(paths.to_set()),
{
    assert forall|key: Seq<char>|
        #![trigger forget(map, paths).contains_key(key)]
        forget(map, paths).contains_key(key) == map.remove_keys(paths.to_set()).contains_key(
            key,
        ) && (forget(map, paths).contains_key(key) ==> forget(map, paths)[key] == map[key]) by {
        lemma_forget(map, paths, key);
    }
    assert(forget(map, paths) =~= map.remove_keys(paths.to_set()));
}

/// A path goes only when the cache is full, and never more than are needed to make
/// room for one.
pub proof fn lemma_excess(used: nat, capacity: nat)
    requires
        used <= capacity,
        capacity > 0,
    ensures
        used - excess(used, capacity) + 1 <= capacity,
        excess(used, capacity) > 0 ==> used - excess(used, capacity) + 1 == capacity,
        0 <= excess(used, capacity) <= used,
{
}

/// What was inserted last is there, whatever had to go.
pub proof fn lemma_inserted_is_there<T>(
    values: Map<Seq<char>, T>,
    gone: Seq<Seq<char>>,
    path: Seq<char>,
    value: T,
)
    ensures
        forget(values, gone).insert(path, value).contains_key(path),
        forget(values, gone).insert(path, value)[path] == value,
{
}

} // verus!
