//! Slots for a fixed number of keys, kept in order of use.
use vstd::prelude::*;
use vstd::std_specs::cmp::PartialEqSpec;

verus! {

/// One slot and its neighbours in the ring.
pub struct Link<Key> {
    pub index: usize,
    pub next: usize,
    pub prev: usize,
    pub key: Option<Key>,
}

impl<Key> Link<Key> {
    fn dangling() -> (this: Self)
        ensures
            this == (Link::<Key> { index: 0, next: 0, prev: 0, key: None }),
    {
        Link { index: 0, next: 0, prev: 0, key: None }
    }
}

/// Slots `0..N` in a ring. A slot is free or holds a key; no key is held twice.
pub struct Cache<Key, const N: usize> {
    pub links: Vec<Link<Key>>,
    pub head: usize,
    pub tail: usize,
    pub order: Ghost<Seq<int>>,
}

/// `==` of keys tells equal keys from unequal ones.
pub open spec fn exact_eq<Key: PartialEq>() -> bool {
    &&& Key::obeys_eq_spec()
    &&& forall|a: Key, b: Key| #[trigger] a.eq_spec(&b) <==> a == b
}

/// Position after `k` in a ring of `n`.
pub open spec fn after(k: int, n: int) -> int {
    if k + 1 == n {
        0
    } else {
        k + 1
    }
}

/// The links form the ring that `order` lists, from `head` to `tail`.
pub open spec fn ring<Key>(links: Seq<Link<Key>>, head: int, tail: int, order: Seq<int>) -> bool {
    &&& order.len() > 0
    &&& order.no_duplicates()
    &&& forall|k: int| 0 <= k < order.len() ==> 0 <= #[trigger] order[k] < links.len()
    &&& head == order[0]
    &&& tail == order[order.len() - 1]
    &&& forall|k: int| 0 <= k < order.len() ==> #[trigger] linked_at(links, order, k)
}

/// The slot at position `k` and the next one refer to each other.
pub open spec fn linked_at<Key>(links: Seq<Link<Key>>, order: Seq<int>, k: int) -> bool {
    &&& links[order[k]].next == order[after(k, order.len() as int)]
    &&& links[order[after(k, order.len() as int)]].prev == order[k]
}

/// `index` moved to the end.
pub open spec fn moved_last(order: Seq<int>, index: int) -> Seq<int> {
    order.remove_value(index).push(index)
}

impl<Key, const N: usize> Cache<Key, N> {
    /// The key in each slot.
    pub open spec fn keys(&self) -> Seq<Option<Key>> {
        Seq::new(N as nat, |i: int| self.links@[i].key)
    }

    /// Slots from the first to be searched to the first to be reused.
    pub open spec fn slots(&self) -> Seq<int> {
        self.order@
    }

    pub open spec fn wf(&self) -> bool {
        &&& N > 0
        &&& self.links@.len() == N
        &&& self.order@.len() == N
        &&& ring(self.links@, self.head as int, self.tail as int, self.order@)
        &&& forall|i: int| 0 <= i < N ==> #[trigger] self.order@.contains(i)
        &&& forall|i: int| 0 <= i < N ==> (#[trigger] self.links@[i]).index == i
        &&& forall|i: int, j: int|
            0 <= i < j < N && (#[trigger] self.links@[i]).key is Some ==> self.links@[i].key != (#[trigger] self.links@[j]).key
    }

    /// Makes `N` free slots.
    pub fn new() -> (this: Self)
        requires
            N > 0,
        ensures
            this.wf(),
            forall|i: int| 0 <= i < N ==> (#[trigger] this.keys()[i]) is None,
            this.slots() == Seq::new(N as nat, |i: int| i),
    {
        let mut links: Vec<Link<Key>> = Vec::new();
        let mut n: usize = 0;
        while n < N
            invariant
                n <= N,
                links@.len() == n,
                forall|i: int| 0 <= i < n ==> (#[trigger] links@[i]).index == i && links@[i].key is None && links@[i].next == 0
                    && links@[i].prev == 0,
            decreases N - n,
        {
            let mut link = Link::dangling();
            link.index = n;
            links.push(link);
            n = n + 1;
        }
        let head: usize = 0;
        let mut tail: usize = 0;
        let mut i: usize = 1;
        while i < N
            invariant
                0 < i <= N,
                head == 0,
                tail == i - 1,
                links@.len() == N,
                forall|k: int| 0 <= k < N ==> (#[trigger] links@[k]).index == k && links@[k].key is None,
                forall|k: int| 0 <= k < i ==> (#[trigger] links@[k]).next == after(k, i as int),
                forall|k: int| 0 < k < i ==> (#[trigger] links@[k]).prev == k - 1,
                links@[0].prev == i - 1,
            decreases N - i,
        {
            links[i].prev = tail;
            links[i].next = head;
            links[head].prev = i;
            links[tail].next = i;
            tail = i;
            i = i + 1;
        }
        let ghost order = Seq::new(N as nat, |i: int| i);
        proof {
            assert forall|k: int| 0 <= k < N implies #[trigger] order.contains(k) by {
                assert(order[k] == k);
            }
        }
        Cache { links, head, tail, order: Ghost(order) }
    }

    /// The slot that holds `key`, searched from the head on.
    fn find(&self, key: &Key) -> (r: Option<usize>)
        where Key: PartialEq
        requires
            self.wf(),
            exact_eq::<Key>(),
        ensures
            match r {
                Some(i) => i < N && self.keys()[i as int] == Some(*key),
                None => !self.keys().contains(Some(*key)),
            },
    {
        let mut current = self.head;
        let ghost mut k: int = 0;
        proof {
            assert(self.order@[0] == self.head);
        }
        loop
            invariant
                self.wf(),
                exact_eq::<Key>(),
                0 <= k < N,
                current == self.order@[k],
                forall|j: int| 0 <= j < k ==> self.links@[#[trigger] self.order@[j]].key != Some(*key),
            decreases N - k,
        {
            match &self.links[current].key {
                Some(found) => {
                    if *found == *key {
                        return Some(current);
                    }
                },
                None => {},
            }
            if current == self.tail {
                proof {
                    assert(k == N - 1);
                    if self.keys().contains(Some(*key)) {
                        let i = choose|i: int| 0 <= i < N && self.keys()[i] == Some(*key);
                        assert(self.order@.contains(i));
                        let j = choose|j: int| 0 <= j < N && self.order@[j] == i;
                        assert(self.links@[self.order@[j]].key != Some(*key));
                    }
                }
                return None;
            }
            proof {
                assert(linked_at(self.links@, self.order@, k));
            }
            current = self.links[current].next;
            proof {
                k = k + 1;
            }
        }
    }

    /// The free slot nearest to the tail.
    fn find_unused(&self) -> (r: Option<usize>)
        requires
            self.wf(),
        ensures
            match r {
                Some(i) => is_last_unused(self.keys(), self.slots(), i as int),
                None => forall|i: int| 0 <= i < N ==> (#[trigger] self.keys()[i]) is Some,
            },
    {
        let mut current = self.tail;
        let ghost mut k: int = N - 1;
        loop
            invariant
                self.wf(),
                0 <= k < N,
                current == self.order@[k],
                forall|j: int| k < j < N ==> self.links@[#[trigger] self.order@[j]].key is Some,
            decreases k,
        {
            if self.links[current].key.is_none() {
                proof {
                    assert(self.slots()[k] == current);
                }
                return Some(current);
            }
            if current == self.head {
                proof {
                    assert(k == 0);
                    assert forall|i: int| 0 <= i < N implies (#[trigger] self.keys()[i]) is Some by {
                        assert(self.order@.contains(i));
                        let j = choose|j: int| 0 <= j < N && self.order@[j] == i;
                        assert(self.links@[self.order@[j]].key is Some);
                    }
                }
                return None;
            }
            proof {
                assert(self.order@[0] == self.head);
                assert(after(k - 1, N as int) == k);
                assert(linked_at(self.links@, self.order@, k - 1));
            }
            current = self.links[current].prev;
            proof {
                k = k - 1;
            }
        }
    }

    /// The slot of `key`. Where no slot holds it, the free slot nearest to the tail takes it,
    /// which the second component tells.
    pub fn get(&mut self, key: Key) -> (r: Option<(usize, bool)>)
        where Key: PartialEq
        requires
            old(self).wf(),
            exact_eq::<Key>(),
        ensures
            final(self).wf(),
            final(self).slots() == old(self).slots(),
            match r {
                Some((i, false)) => {
                    &&& i < N
                    &&& old(self).keys()[i as int] == Some(key)
                    &&& *final(self) == *old(self)
                },
                Some((i, true)) => {
                    &&& !old(self).keys().contains(Some(key))
                    &&& is_last_unused(old(self).keys(), old(self).slots(), i as int)
                    &&& final(self).keys() == old(self).keys().update(i as int, Some(key))
                },
                None => {
                    &&& !old(self).keys().contains(Some(key))
                    &&& forall|i: int| 0 <= i < N ==> (#[trigger] old(self).keys()[i]) is Some
                    &&& *final(self) == *old(self)
                },
            },
    {
        let ghost keys0 = self.keys();
        match self.find(&key) {
            Some(i) => {
                return Some((i, false));
            },
            None => {},
        }
        match self.find_unused() {
            Some(i) => {
                proof {
                    assert forall|j: int| 0 <= j < N implies (#[trigger] self.links@[j]).key != Some(key) by {
                        assert(keys0[j] == self.links@[j].key);
                    }
                }
                let ghost links0 = self.links@;
                self.links[i].key = Some(key);
                proof {
                    lemma_ring_kept(links0, self.links@, self.head as int, self.tail as int, self.order@);
                    assert(self.keys() =~= keys0.update(i as int, Some(key)));
                }
                Some((i, true))
            },
            None => None,
        }
    }

    /// Frees slot `index` and makes it the first to be reused.
    #[verifier::rlimit(60)]
    pub fn remove(&mut self, index: usize) -> (r: Option<()>)
        requires
            old(self).wf(),
        ensures
            final(self).wf(),
            if index >= N {
                r is None && *final(self) == *old(self)
            } else {
                &&& r is Some
                &&& final(self).keys() == old(self).keys().update(index as int, None)
                &&& final(self).slots() == moved_last(old(self).slots(), index as int)
            },
    {
        let ghost keys0 = self.keys();
        let ghost order0 = self.order@;
        if index >= self.links.len() {
            return None;
        }
        proof {
            assert(order0.contains(index as int));
        }
        let ghost k = order0.index_of(index as int);
        let ghost links0 = self.links@;
        self.links[index].key = None;
        let ghost links1 = self.links@;
        proof {
            lemma_ring_kept(links0, links1, self.head as int, self.tail as int, order0);
            lemma_moved_last(order0, index as int);
            assert(order0[k] == index);
            assert(order0[0] == self.head);
            assert(order0[N - 1] == self.tail);
        }
        if self.head == index {
            proof {
                assert(linked_at(links1, order0, 0));
            }
            self.head = self.links[index].next;
            self.tail = index;
            proof {
                self.order = Ghost(moved_last(order0, index as int));
                assert(k == 0);
                lemma_rotated(links1, order0);
            }
        } else if self.tail == index {
            proof {
                assert(k == N - 1);
                self.order = Ghost(moved_last(order0, index as int));
                assert(self.order@ =~= order0);
            }
        } else {
            let next = self.links[index].next;
            let prev = self.links[index].prev;
            proof {
                assert(0 < k < N - 1);
                assert(after(k - 1, N as int) == k);
                assert(linked_at(links1, order0, k - 1));
                assert(linked_at(links1, order0, k));
                assert(prev == order0[k - 1]);
                assert(next == order0[k + 1]);
            }
            self.links[next].prev = prev;
            self.links[prev].next = next;
            let h = self.head;
            let t = self.tail;
            self.links[index].next = h;
            self.links[index].prev = t;
            self.links[h].prev = index;
            self.links[t].next = index;
            self.tail = index;
            proof {
                self.order = Ghost(moved_last(order0, index as int));
                let order1 = self.order@;
                assert forall|j: int| 0 <= j < N implies #[trigger] linked_at(self.links@, order1, j) by {
                    let j0 = if j < k { j } else { j + 1 };
                    if j < N - 1 {
                        assert(order1[j] == order0[j0]);
                        assert(linked_at(links1, order0, j0));
                        if j < N - 2 {
                            let j1 = if j + 1 < k { j + 1 } else { j + 2 };
                            assert(order1[j + 1] == order0[j1]);
                        }
                    }
                    assert(order1[N - 1] == index);
                    assert(order1[0] == order0[0]);
                    assert(order1[N - 2] == order0[N - 1]);
                }
            }
        }
        proof {
            assert(self.keys() =~= keys0.update(index as int, None));
            assert forall|i: int, j: int|
                0 <= i < j < N && (#[trigger] self.links@[i]).key is Some implies self.links@[i].key != (#[trigger] self.links@[j]).key by {
                assert(keys0[i] == self.links@[i].key || i == index);
                assert(keys0[j] == self.links@[j].key || j == index);
            }
        }
        Some(())
    }
}

/// Slot `i` is free, and no slot nearer to the tail is.
pub open spec fn is_last_unused<Key>(keys: Seq<Option<Key>>, slots: Seq<int>, i: int) -> bool {
    &&& 0 <= i < keys.len()
    &&& keys[i] is None
    &&& exists|k: int| {
        &&& 0 <= k < slots.len()
        &&& #[trigger] slots[k] == i
        &&& forall|j: int| k < j < slots.len() ==> keys[#[trigger] slots[j]] is Some
    }
}

/// Moving an element to the end keeps the elements.
proof fn lemma_moved_last(order: Seq<int>, index: int)
    requires
        order.no_duplicates(),
        order.contains(index),
    ensures
        ({
            let k = order.index_of(index);
            let new = moved_last(order, index);
            &&& 0 <= k < order.len()
            &&& order[k] == index
            &&& new.len() == order.len()
            &&& new.no_duplicates()
            &&& forall|j: int| 0 <= j < order.len() - 1 ==> #[trigger] new[j] == order[if j < k { j } else { j + 1 }]
            &&& new[order.len() - 1] == index
            &&& forall|i: int| #[trigger] new.contains(i) <==> order.contains(i)
        }),
{
    let k = order.index_of(index);
    order.index_of_first_ensures(index);
    assert(order.index_of_first(index) is Some);
    let f = order.index_of_first(index)->0;
    assert(f == k);
    let new = moved_last(order, index);
    assert(order.remove_value(index) == order.remove(k));
    assert forall|i: int| #[trigger] new.contains(i) <==> order.contains(i) by {
        if order.contains(i) {
            let j = choose|j: int| 0 <= j < order.len() && order[j] == i;
            if j == k {
                assert(new[order.len() - 1] == i);
            } else if j < k {
                assert(new[j] == i);
            } else {
                assert(new[j - 1] == i);
            }
        }
        if new.contains(i) {
            let j = choose|j: int| 0 <= j < new.len() && new[j] == i;
            if j == new.len() - 1 {
                assert(order[k] == i);
            } else {
                assert(order[if j < k { j } else { j + 1 }] == i);
            }
        }
    }
}

/// Keys do not matter to the ring.
proof fn lemma_ring_kept<Key>(links0: Seq<Link<Key>>, links1: Seq<Link<Key>>, head: int, tail: int, order: Seq<int>)
    requires
        ring(links0, head, tail, order),
        links1.len() == links0.len(),
        forall|i: int| 0 <= i < links0.len() ==> (#[trigger] links1[i]).next == links0[i].next && links1[i].prev == links0[i].prev,
    ensures
        ring(links1, head, tail, order),
{
    assert forall|k: int| 0 <= k < order.len() implies #[trigger] linked_at(links1, order, k) by {
        assert(linked_at(links0, order, k));
    }
}

/// Turning the ring by one moves its head to the end.
proof fn lemma_rotated<Key>(links: Seq<Link<Key>>, order: Seq<int>)
    requires
        ring(links, order[0], order[order.len() - 1], order),
    ensures
        ring(links, order[after(0, order.len() as int)], order[0], moved_last(order, order[0])),
{
    let n = order.len() as int;
    let new = moved_last(order, order[0]);
    assert(order.contains(order[0]));
    lemma_moved_last(order, order[0]);
    assert(order.index_of(order[0]) == 0);
    assert forall|k: int| 0 <= k < n implies #[trigger] linked_at(links, new, k) by {
        let k0 = after(k, n);
        assert(new[k] == order[k0]);
        assert(linked_at(links, order, k0));
        assert(new[after(k, n)] == order[after(k0, n)]);
    }
}

/// A cache that counts the users of each slot.
pub struct CacheRc<Key, const N: usize> {
    pub cache: Cache<Key, N>,
    pub counts: Vec<usize>,
}

impl<Key, const N: usize> CacheRc<Key, N> {
    /// The key in each slot.
    pub open spec fn keys(&self) -> Seq<Option<Key>> {
        self.cache.keys()
    }

    /// Slots from the first to be searched to the first to be reused.
    pub open spec fn slots(&self) -> Seq<int> {
        self.cache.slots()
    }

    /// A slot is free exactly where nobody uses it.
    pub open spec fn wf(&self) -> bool {
        &&& self.cache.wf()
        &&& self.counts@.len() == N
        &&& forall|i: int| 0 <= i < N ==> (#[trigger] self.counts@[i] == 0 <==> self.keys()[i] is None)
    }

    pub fn new() -> (this: Self)
        requires
            N > 0,
        ensures
            this.wf(),
            forall|i: int| 0 <= i < N ==> (#[trigger] this.keys()[i]) is None,
            this.slots() == Seq::new(N as nat, |i: int| i),
            this.counts@ == Seq::new(N as nat, |i: int| 0usize),
    {
        let cache = Cache::new();
        let mut counts: Vec<usize> = Vec::new();
        let mut i: usize = 0;
        while i < N
            invariant
                i <= N,
                counts@ =~= Seq::new(i as nat, |k: int| 0usize),
            decreases N - i,
        {
            counts.push(0);
            i = i + 1;
        }
        CacheRc { cache, counts }
    }

    /// The slot of `key`, as for `Cache`, with one user more.
    pub fn get(&mut self, key: Key) -> (r: Option<(usize, bool)>)
        where Key: PartialEq
        requires
            old(self).wf(),
            exact_eq::<Key>(),
            forall|i: int| 0 <= i < N ==> #[trigger] old(self).counts@[i] < usize::MAX,
        ensures
            final(self).wf(),
            got(*old(self), *final(self), key, r),
    {
        let ghost counts0 = self.counts@;
        match self.cache.get(key) {
            Some((i, fresh)) => {
                proof {
                    assert(self.counts@[i as int] < usize::MAX);
                }
                let count = self.counts[i];
                self.counts.set(i, count + 1);
                Some((i, fresh))
            },
            None => None,
        }
    }

    /// One user more for slot `index`. A slot that nobody uses does not get a key by that.
    pub fn duplicate(&mut self, index: usize) -> (r: Option<usize>)
        requires
            old(self).wf(),
            index < N ==> old(self).counts@[index as int] < usize::MAX,
        ensures
            index < N && old(self).counts@[index as int] == 0 || final(self).wf(),
            final(self).cache == old(self).cache,
            if index < N {
                &&& r == Some(index)
                &&& final(self).counts@ == old(self).counts@.update(index as int, (old(self).counts@[index as int] + 1) as usize)
            } else {
                r is None && *final(self) == *old(self)
            },
    {
        if index < self.counts.len() {
            let count = self.counts[index];
            self.counts.set(index, count + 1);
            Some(index)
        } else {
            None
        }
    }

    /// One user less for slot `index`, which must have one. The last user frees the slot,
    /// which the result tells.
    pub fn release(&mut self, index: usize) -> (r: Option<bool>)
        requires
            old(self).wf(),
            index < N ==> old(self).counts@[index as int] > 0,
        ensures
            final(self).wf(),
            released(*old(self), *final(self), index, r),
    {
        if index >= self.counts.len() {
            return None;
        }
        let count = self.counts[index];
        if count == 1 {
            self.counts.set(index, 0);
            let _ = self.cache.remove(index);
            Some(true)
        } else {
            self.counts.set(index, count - 1);
            Some(false)
        }
    }

    /// Number of users of slot `index`.
    pub fn reference_count(&self, index: usize) -> (r: Option<usize>)
        requires
            self.wf(),
        ensures
            r == if index < N { Some(self.counts@[index as int]) } else { None },
    {
        if index < self.counts.len() {
            Some(self.counts[index])
        } else {
            None
        }
    }
}

impl<Key, const N: usize> CacheRc<Key, N> {
    /// Whether `get` would find or take a slot for `key`.
    pub fn can_get(&self, key: &Key) -> (b: bool)
        where Key: PartialEq
        requires
            self.wf(),
            exact_eq::<Key>(),
        ensures
            b == gettable(self.keys(), *key),
    {
        match self.cache.find(key) {
            Some(i) => {
                proof {
                    assert(self.keys()[i as int] == Some(*key));
                }
                true
            },
            None => match self.cache.find_unused() {
                Some(i) => {
                    proof {
                        assert(self.keys()[i as int] is None);
                    }
                    true
                },
                None => false,
            },
        }
    }
}

/// What getting the slot of `key` comes to.
pub open spec fn got<Key, const N: usize>(c0: CacheRc<Key, N>, c1: CacheRc<Key, N>, key: Key, r: Option<(usize, bool)>) -> bool {
    &&& c1.slots() == c0.slots()
    &&& match r {
        Some((i, false)) => {
            &&& i < N
            &&& c0.keys()[i as int] == Some(key)
            &&& c1.keys() == c0.keys()
            &&& c1.counts@ == c0.counts@.update(i as int, (c0.counts@[i as int] + 1) as usize)
        },
        Some((i, true)) => {
            &&& !c0.keys().contains(Some(key))
            &&& is_last_unused(c0.keys(), c0.slots(), i as int)
            &&& c1.keys() == c0.keys().update(i as int, Some(key))
            &&& c1.counts@ == c0.counts@.update(i as int, 1)
        },
        None => {
            &&& !c0.keys().contains(Some(key))
            &&& forall|i: int| 0 <= i < N ==> (#[trigger] c0.keys()[i]) is Some
            &&& c1 == c0
        },
    }
}

/// What giving back slot `index` comes to.
pub open spec fn released<Key, const N: usize>(c0: CacheRc<Key, N>, c1: CacheRc<Key, N>, index: usize, r: Option<bool>) -> bool {
    if index >= N {
        r is None && c1 == c0
    } else {
        &&& r == Some(c0.counts@[index as int] == 1)
        &&& c1.counts@ == c0.counts@.update(index as int, (c0.counts@[index as int] - 1) as usize)
        &&& if c0.counts@[index as int] == 1 {
            &&& c1.keys() == c0.keys().update(index as int, None)
            &&& c1.slots() == moved_last(c0.slots(), index as int)
        } else {
            c1.cache == c0.cache
        }
    }
}

/// A slot holds `key` or is free.
pub open spec fn gettable<Key>(keys: Seq<Option<Key>>, key: Key) -> bool {
    keys.contains(Some(key)) || exists|i: int| 0 <= i < keys.len() && (#[trigger] keys[i]) is None
}


/// What happens to references: one more goes out for a slot, or one comes back.
pub enum Handing {
    Out(int),
    Back(int),
}

/// The counts of references were `states[i]` before step `i`, and all zero at first.
pub open spec fn is_handing(states: Seq<Seq<usize>>, steps: Seq<Handing>) -> bool {
    &&& states.len() == steps.len() + 1
    &&& forall|k: int| 0 <= k < states[0].len() ==> #[trigger] states[0][k] == 0
    &&& forall|i: int| 0 <= i < steps.len() ==> match #[trigger] steps[i] {
        Handing::Out(k) => {
            &&& 0 <= k < states[i].len()
            &&& states[i][k] < usize::MAX
            &&& states[i + 1] == states[i].update(k, (states[i][k] + 1) as usize)
        },
        Handing::Back(k) => {
            &&& 0 <= k < states[i].len()
            &&& states[i][k] > 0
            &&& states[i + 1] == states[i].update(k, (states[i][k] - 1) as usize)
        },
    }
}

/// How many more references went out for slot `k` than came back.
pub open spec fn references_out(steps: Seq<Handing>, k: int) -> int
    decreases steps.len(),
{
    if steps.len() == 0 {
        0
    } else {
        references_out(steps.drop_last(), k) + match steps.last() {
            Handing::Out(x) => if x == k { 1int } else { 0int },
            Handing::Back(x) => if x == k { -1int } else { 0int },
        }
    }
}

/// Over any history, the count of a slot is the number of references that are out.
pub proof fn lemma_count_is_references(states: Seq<Seq<usize>>, steps: Seq<Handing>, k: int)
    requires
        is_handing(states, steps),
        0 <= k < states[0].len(),
    ensures
        states.last().len() == states[0].len(),
        states.last()[k] == references_out(steps, k),
    decreases steps.len(),
{
    if steps.len() > 0 {
        let n = steps.len() - 1;
        let s = states.drop_last();
        let t = steps.drop_last();
        assert(is_handing(s, t)) by {
            assert forall|i: int| 0 <= i < t.len() implies match #[trigger] t[i] {
                Handing::Out(k) => {
                    &&& 0 <= k < s[i].len()
                    &&& s[i][k] < usize::MAX
                    &&& s[i + 1] == s[i].update(k, (s[i][k] + 1) as usize)
                },
                Handing::Back(k) => {
                    &&& 0 <= k < s[i].len()
                    &&& s[i][k] > 0
                    &&& s[i + 1] == s[i].update(k, (s[i][k] - 1) as usize)
                },
            } by {
                assert(t[i] == steps[i]);
            }
        }
        lemma_count_is_references(s, t, k);
        assert(s.last() == states[n]);
        assert(states.last() == states[n + 1]);
        assert(steps[n] == steps.last());
    }
}


/// All who ask for one key share one slot, which counts them. No slot that somebody uses is given to
/// another key.
pub proof fn lemma_slot_shared<Key, const N: usize>(
    c0: CacheRc<Key, N>,
    c1: CacheRc<Key, N>,
    c2: CacheRc<Key, N>,
    key: Key,
    other: Key,
    i: usize,
    fresh: bool,
    r: Option<(usize, bool)>,
)
    requires
        c0.wf(),
        c1.wf(),
        forall|k: int| 0 <= k < N ==> #[trigger] c0.counts@[k] < usize::MAX - 1,
        got(c0, c1, key, Some((i, fresh))),
        got(c1, c2, other, r),
    ensures
        i < N,
        c1.keys()[i as int] == Some(key),
        c1.counts@[i as int] == c0.counts@[i as int] + 1,
        fresh <==> c0.counts@[i as int] == 0,
        c2.keys()[i as int] == Some(key),
        r matches Some((j, _)) ==> (j == i <==> other == key),
        other == key ==> r == Some((i, false)) && c2.counts@[i as int] == c0.counts@[i as int] + 2,
{
    assert(c0.counts@[i as int] == 0 <==> c0.keys()[i as int] is None);
    assert(c1.keys()[i as int] == Some(key));
    assert(c1.cache.links@[i as int].key == Some(key));
    if let Some((j, _)) = r {
        if j < N {
            assert(c1.cache.links@[j as int].key == c1.keys()[j as int]);
        }
    }
}

/// Getting a slot and giving it back leaves the same keys in the same slots, with the same counts. Whoever
/// is the last to give back a slot makes it free, and it is the first to be used again.
pub proof fn lemma_get_release<Key, const N: usize>(
    c0: CacheRc<Key, N>,
    c1: CacheRc<Key, N>,
    c2: CacheRc<Key, N>,
    c3: CacheRc<Key, N>,
    key: Key,
    i: usize,
    fresh: bool,
    r: Option<bool>,
    other: Key,
    next: Option<(usize, bool)>,
)
    requires
        c0.wf(),
        c1.wf(),
        forall|k: int| 0 <= k < N ==> #[trigger] c0.counts@[k] < usize::MAX,
        got(c0, c1, key, Some((i, fresh))),
        released(c1, c2, i, r),
        got(c2, c3, other, next),
        !c2.keys().contains(Some(other)),
    ensures
        c2.keys() == c0.keys(),
        c2.counts@ == c0.counts@,
        r == Some(fresh),
        fresh ==> next == Some((i, true)),
{
    assert(c0.counts@[i as int] == 0 <==> c0.keys()[i as int] is None);
    assert(c2.counts@ =~= c0.counts@);
    assert(c2.keys() =~= c0.keys());
    if fresh {
        let order = c1.slots();
        assert(order.contains(i as int));
        lemma_moved_last(order, i as int);
        let moved = moved_last(order, i as int);
        assert(moved.last() == i);
        assert(c2.keys()[i as int] is None);
        if let Some((j, false)) = next {
            assert(c2.keys()[j as int] == Some(other));
        }
    }
}

} // verus!
