use vstd::prelude::*;

verus! {

/// Why an operation on the queue was refused.
#[derive(Debug, Clone, Copy, PartialEq, Eq, Structural)]
pub enum PqError {
    /// The index is not below the capacity of the queue.
    OutOfRange,
    /// The index is already in the queue.
    AlreadyPresent,
    /// The index is not in the queue.
    NotPresent,
    /// The queue holds nothing.
    Empty,
}

/// A minimum priority queue over the indices `0..capacity`, each with a priority.
///
/// It is a binary heap of indices with, for each index, its place in the heap, so that
/// the priority of an index that is already queued can be changed.
#[derive(Debug)]
pub struct IndexMinPQ {
    max_n: i32,
    n: i32,
    pq: Vec<i32>,
    qp: Vec<i32>,
    keys: Vec<u64>,
}

impl IndexMinPQ {
    /// The queued indices, each with its priority.
    pub closed spec fn view(&self) -> Map<int, u64> {
        Map::new(|i: int| 0 <= i < self.max_n && self.qp@[i] != -1, |i: int| self.keys@[i])
    }

    /// The number of indices the queue was made for.
    pub closed spec fn capacity(&self) -> int {
        self.max_n as int
    }

    /// The heap as a sequence of indices, the root first.
    pub closed spec fn heap(&self) -> Seq<int> {
        Seq::new(self.n as nat, |j: int| self.pq@[j + 1] as int)
    }

    /// No index of the heap has a smaller priority than the index above it.
    pub open spec fn heap_ordered(&self) -> bool {
        forall|j: int|
            1 <= j < self.heap().len() ==> self@[self.heap()[(j - 1) / 2]] <= self@[#[trigger] self.heap()[j]]
    }

    /// The heap lists the queued indices, each of them once.
    pub open spec fn heap_lists_queue(&self) -> bool {
        &&& self.heap().len() == self@.len()
        &&& self.heap().no_duplicates()
        &&& forall|j: int| 0 <= j < self.heap().len() ==> self@.contains_key(#[trigger] self.heap()[j])
    }

    spec fn slot_key(&self, j: int) -> u64 {
        self.keys@[self.pq@[j] as int]
    }

    spec fn pair_ok(&self, j: int) -> bool {
        self.slot_key(j / 2) <= self.slot_key(j)
    }

    spec fn grand_ok(&self, j: int) -> bool {
        self.slot_key(j / 2 / 2) <= self.slot_key(j)
    }

    spec fn struct_ok(&self) -> bool {
        &&& 0 <= self.max_n < i32::MAX
        &&& self.pq@.len() == self.max_n + 1
        &&& self.qp@.len() == self.max_n + 1
        &&& self.keys@.len() == self.max_n + 1
        &&& 0 <= self.n <= self.max_n
        &&& self@.dom().finite()
        &&& self@.dom().len() == self.n
        &&& forall|j: int|
            1 <= j <= self.n ==> 0 <= #[trigger] self.pq@[j] < self.max_n && self.qp@[self.pq@[j] as int]
                == j
        &&& forall|i: int|
            0 <= i < self.max_n ==> #[trigger] self.qp@[i] == -1 || (1 <= self.qp@[i] <= self.n
                && self.pq@[self.qp@[i] as int] == i)
    }

    spec fn ordered(&self) -> bool {
        forall|j: int| 2 <= j <= self.n ==> #[trigger] self.pair_ok(j)
    }

    spec fn parent_ok(&self, k: int) -> bool {
        k == 1 || self.pair_ok(k)
    }

    spec fn swim_pre(&self, k: int) -> bool {
        &&& forall|j: int| 2 <= j <= self.n && j != k ==> #[trigger] self.pair_ok(j)
        &&& forall|j: int| 4 <= j <= self.n && j / 2 == k ==> #[trigger] self.grand_ok(j)
    }

    spec fn sink_pre(&self, k: int) -> bool {
        &&& forall|j: int| 2 <= j <= self.n && j / 2 != k ==> #[trigger] self.pair_ok(j)
        &&& forall|j: int| 4 <= j <= self.n && j / 2 == k ==> #[trigger] self.grand_ok(j)
    }

    /// The queue is sound: heap and places agree, and no index of the heap has a smaller
    /// priority than the index above it.
    pub closed spec fn wf(&self) -> bool {
        self.struct_ok() && self.ordered()
    }

    /// An empty queue for the indices `0..max_n`.
    pub fn get_index_from_size(max_n: i32) -> (q: Self)
        requires
            0 <= max_n < i32::MAX,
        ensures
            q.wf(),
            q.capacity() == max_n,
            q@ == Map::<int, u64>::empty(),
    {
        let mut pq: Vec<i32> = Vec::new();
        let mut qp: Vec<i32> = Vec::new();
        let mut keys: Vec<u64> = Vec::new();
        let mut i: i32 = 0;
        while i <= max_n
            invariant
                0 <= i <= max_n + 1,
                max_n < i32::MAX,
                pq@.len() == i,
                qp@.len() == i,
                keys@.len() == i,
                forall|j: int| 0 <= j < i ==> #[trigger] qp@[j] == -1,
            decreases max_n + 1 - i,
        {
            pq.push(0);
            qp.push(-1);
            keys.push(0);
            i = i + 1;
        }
        let q = IndexMinPQ { max_n, n: 0, pq, qp, keys };
        assert(q@ =~= Map::<int, u64>::empty());
        q
    }

    /// Whether the queue holds nothing.
    pub fn is_empty(&self) -> (b: bool)
        requires
            self.wf(),
        ensures
            b == (self@.len() == 0),
            b == (self@ == Map::<int, u64>::empty()),
    {
        proof {
            if self.n == 0 {
                assert(self@.dom() =~= Set::<int>::empty());
                assert(self@ =~= Map::<int, u64>::empty());
            } else {
                assert(self@.contains_key(self.pq@[1] as int));
            }
        }
        self.n == 0
    }

    /// The number of queued indices.
    pub fn size(&self) -> (n: i32)
        requires
            self.wf(),
        ensures
            n == self@.len(),
    {
        self.n
    }

    /// Whether index `i` is queued.
    pub fn contains(&self, i: usize) -> (b: bool)
        requires
            self.wf(),
        ensures
            b == self@.contains_key(i as int),
    {
        if i >= self.max_n as usize {
            false
        } else {
            self.qp[i] != -1
        }
    }

    fn greater(&self, i: i32, j: i32) -> (b: bool)
        requires
            self.struct_ok(),
            1 <= i <= self.n,
            1 <= j <= self.n,
        ensures
            b == (self.slot_key(i as int) > self.slot_key(j as int)),
    {
        let it1 = self.pq[i as usize];
        let it2 = self.pq[j as usize];
        self.keys[it1 as usize] > self.keys[it2 as usize]
    }

    fn exch(&mut self, i: usize, j: usize)
        requires
            old(self).struct_ok(),
            1 <= i <= old(self).n,
            1 <= j <= old(self).n,
        ensures
            final(self).struct_ok(),
            final(self).max_n == old(self).max_n,
            final(self).n == old(self).n,
            final(self).keys == old(self).keys,
            final(self)@ == old(self)@,
            final(self).pq@ == old(self).pq@.update(i as int, old(self).pq@[j as int]).update(
                j as int,
                old(self).pq@[i as int],
            ),
    {
        let a = self.pq[i];
        let b = self.pq[j];
        self.pq[i] = b;
        self.pq[j] = a;
        self.qp[b as usize] = i as i32;
        self.qp[a as usize] = j as i32;
        assert(self@ =~= old(self)@);
    }
}

impl IndexMinPQ {
    fn swim(&mut self, k0: i32)
        requires
            old(self).struct_ok(),
            1 <= k0 <= old(self).n,
            old(self).swim_pre(k0 as int) || old(self).parent_ok(k0 as int),
        ensures
            final(self).struct_ok(),
            final(self).max_n == old(self).max_n,
            final(self).n == old(self).n,
            final(self).keys == old(self).keys,
            final(self)@ == old(self)@,
            old(self).swim_pre(k0 as int) ==> final(self).ordered(),
            old(self).parent_ok(k0 as int) ==> final(self).pq == old(self).pq && final(self).qp
                == old(self).qp,
    {
        let mut k = k0;
        while k > 1 && self.greater(k / 2, k)
            invariant
                self.struct_ok(),
                1 <= k <= self.n,
                self.max_n == old(self).max_n,
                self.n == old(self).n,
                self.keys == old(self).keys,
                self@ == old(self)@,
                old(self).swim_pre(k0 as int) || old(self).parent_ok(k0 as int),
                (k == k0 && self.pq == old(self).pq && self.qp == old(self).qp) || (self.swim_pre(
                    k as int,
                ) && !old(self).parent_ok(k0 as int)),
            decreases k,
        {
            let ghost prev = *self;
            let p = k / 2;
            assert(prev.swim_pre(k as int));
            assert(!old(self).parent_ok(k0 as int));
            self.exch(k as usize, p as usize);
            proof {
                assert forall|j: int| 2 <= j <= self.n && j != p implies #[trigger] self.pair_ok(
                    j,
                ) by {
                    if j == k {
                    } else if j / 2 == p {
                        assert(prev.pair_ok(j));
                    } else if j / 2 == k {
                        assert(prev.grand_ok(j));
                    } else {
                        assert(prev.pair_ok(j));
                    }
                }
                assert forall|j: int| 4 <= j <= self.n && j / 2 == p implies #[trigger] self.grand_ok(
                    j,
                ) by {
                    assert(prev.pair_ok(p as int));
                    if j != k {
                        assert(prev.pair_ok(j));
                    }
                }
            }
            k = p;
        }
        proof {
            if old(self).swim_pre(k0 as int) {
                assert(self.swim_pre(k as int));
                assert forall|j: int| 2 <= j <= self.n implies #[trigger] self.pair_ok(j) by {}
            }
        }
    }

    fn sink(&mut self, k0: i32)
        requires
            old(self).struct_ok(),
            1 <= k0,
            old(self).sink_pre(k0 as int),
        ensures
            final(self).struct_ok(),
            final(self).max_n == old(self).max_n,
            final(self).n == old(self).n,
            final(self).keys == old(self).keys,
            final(self)@ == old(self)@,
            final(self).ordered(),
    {
        let mut k = k0;
        while k <= self.n / 2
            invariant
                self.struct_ok(),
                1 <= k,
                self.max_n == old(self).max_n,
                self.n == old(self).n,
                self.keys == old(self).keys,
                self@ == old(self)@,
                self.sink_pre(k as int),
            ensures
                self.ordered(),
            decreases self.n - k,
        {
            let ghost prev = *self;
            let mut j = 2 * k;
            if j < self.n && self.greater(j, j + 1) {
                j = j + 1;
            }
            if !self.greater(k, j) {
                proof {
                    assert forall|i: int| 2 <= i <= self.n implies #[trigger] self.pair_ok(i) by {
                        if i / 2 == k {
                            assert(i == 2 * k || i == 2 * k + 1);
                        }
                    }
                }
                break ;
            }
            self.exch(k as usize, j as usize);
            proof {
                assert forall|i: int| 2 <= i <= self.n && i / 2 != j implies #[trigger] self.pair_ok(
                    i,
                ) by {
                    if i == j {
                    } else if i / 2 == k {
                        assert(i == 2 * k || i == 2 * k + 1);
                    } else if i == k {
                        assert(prev.grand_ok(j as int));
                    } else {
                        assert(prev.pair_ok(i));
                    }
                }
                assert forall|i: int| 4 <= i <= self.n && i / 2 == j implies #[trigger] self.grand_ok(
                    i,
                ) by {
                    assert(prev.pair_ok(i));
                }
            }
            k = j;
        }
        proof {
            assert forall|i: int| 2 <= i <= self.n implies #[trigger] self.pair_ok(i) by {}
        }
    }
}

impl IndexMinPQ {
    /// Only indices below the capacity are queued.
    pub proof fn lemma_in_range(&self, i: int)
        requires
            self.wf(),
            self@.contains_key(i),
        ensures
            0 <= i < self.capacity(),
    {
    }

    /// A sound queue keeps its heap in order, and the heap holds what is queued.
    pub proof fn lemma_heap_order(&self)
        requires
            self.wf(),
        ensures
            self.heap_ordered(),
            self.heap_lists_queue(),
    {
        let h = self.heap();
        assert forall|j: int| 1 <= j < h.len() implies self@[h[(j - 1) / 2]] <= self@[#[trigger] h[j]] by {
            assert(self.pair_ok(j + 1));
            assert((j + 1) / 2 == (j - 1) / 2 + 1);
            assert(self.qp@[self.pq@[j + 1] as int] == j + 1);
            assert(self.qp@[self.pq@[(j + 1) / 2] as int] == (j + 1) / 2);
        }
        assert forall|j: int| 0 <= j < h.len() implies self@.contains_key(#[trigger] h[j]) by {
            assert(self.qp@[self.pq@[j + 1] as int] == j + 1);
        }
        assert forall|a: int, b: int| 0 <= a < h.len() && 0 <= b < h.len() && a != b implies h[a]
            != h[b] by {
            assert(self.qp@[self.pq@[a + 1] as int] == a + 1);
            assert(self.qp@[self.pq@[b + 1] as int] == b + 1);
        }
    }

    proof fn lemma_root_is_least(&self, j: int)
        requires
            self.struct_ok(),
            self.ordered(),
            1 <= j <= self.n,
        ensures
            self.slot_key(1) <= self.slot_key(j),
        decreases j,
    {
        if j > 1 {
            self.lemma_root_is_least(j / 2);
            assert(self.pair_ok(j));
        }
    }

    proof fn lemma_room_left(&self, i: int)
        requires
            self.struct_ok(),
            0 <= i < self.max_n,
            !self@.contains_key(i),
        ensures
            self.n < self.max_n,
    {
        let all = vstd::set_lib::set_int_range(0, self.max_n as int);
        vstd::set_lib::lemma_int_range(0, self.max_n as int);
        let rest = all.remove(i);
        assert(self@.dom().subset_of(rest));
        vstd::set_lib::lemma_len_subset(self@.dom(), rest);
    }

    /// Queues index `i` with the priority `key`. It is refused, and the queue left as it
    /// was, when `i` is not below the capacity or is queued already.
    pub fn insert(&mut self, i: usize, key: u64) -> (r: Result<(), PqError>)
        requires
            old(self).wf(),
        ensures
            final(self).wf(),
            final(self).capacity() == old(self).capacity(),
            match r {
                Ok(()) => {
                    &&& i < old(self).capacity()
                    &&& !old(self)@.contains_key(i as int)
                    &&& final(self)@ == old(self)@.insert(i as int, key)
                },
                Err(e) => {
                    &&& *final(self) == *old(self)
                    &&& e == if i >= old(self).capacity() {
                        PqError::OutOfRange
                    } else {
                        PqError::AlreadyPresent
                    }
                    &&& i < old(self).capacity() ==> old(self)@.contains_key(i as int)
                },
            },
    {
        if i >= self.max_n as usize {
            return Err(PqError::OutOfRange);
        }
        if self.qp[i] != -1 {
            return Err(PqError::AlreadyPresent);
        }
        proof {
            self.lemma_room_left(i as int);
        }
        let ghost prev = *self;
        self.n = self.n + 1;
        let n = self.n;
        self.qp[i] = n;
        self.pq[n as usize] = i as i32;
        self.keys[i] = key;
        proof {
            assert(self@ =~= prev@.insert(i as int, key));
            assert forall|j: int| 1 <= j <= self.n implies 0 <= #[trigger] self.pq@[j] < self.max_n
                && self.qp@[self.pq@[j] as int] == j by {
                if j < n {
                    assert(prev.qp@[prev.pq@[j] as int] == j);
                }
            }
            assert forall|j: int| 2 <= j <= self.n && j != n implies #[trigger] self.pair_ok(j) by {
                assert(prev.pair_ok(j));
                assert(prev.qp@[prev.pq@[j] as int] == j);
                assert(prev.qp@[prev.pq@[j / 2] as int] == j / 2);
            }
        }
        self.swim(n);
        Ok(())
    }

    /// Takes an index of least priority out of the queue and returns it. An empty queue
    /// is left as it was.
    pub fn del_min(&mut self) -> (r: Result<usize, PqError>)
        requires
            old(self).wf(),
        ensures
            final(self).wf(),
            final(self).capacity() == old(self).capacity(),
            match r {
                Ok(m) => {
                    &&& m < old(self).capacity()
                    &&& old(self)@.contains_key(m as int)
                    &&& forall|i: int| #[trigger]
                        old(self)@.contains_key(i) ==> old(self)@[m as int] <= old(self)@[i]
                    &&& final(self)@ == old(self)@.remove(m as int)
                },
                Err(e) => {
                    &&& e == PqError::Empty
                    &&& old(self)@.len() == 0
                    &&& *final(self) == *old(self)
                },
            },
    {
        if self.n == 0 {
            return Err(PqError::Empty);
        }
        let min = self.pq[1];
        proof {
            assert(self.qp@[self.pq@[1] as int] == 1);
            assert forall|i: int| #[trigger] self@.contains_key(i) implies self@[min as int]
                <= self@[i] by {
                let j = self.qp@[i] as int;
                self.lemma_root_is_least(j);
            }
        }
        let ghost prev = *self;
        let last = self.n;
        self.exch(1, last as usize);
        let ghost mid = *self;
        self.n = last - 1;
        self.qp[min as usize] = -1;
        self.keys[min as usize] = 0;
        self.pq[last as usize] = -1;
        proof {
            assert(self@ =~= prev@.remove(min as int));
            assert forall|j: int| 1 <= j <= self.n implies 0 <= #[trigger] self.pq@[j] < self.max_n
                && self.qp@[self.pq@[j] as int] == j by {
                assert(mid.qp@[mid.pq@[j] as int] == j);
            }
            assert forall|i: int| 0 <= i < self.max_n implies #[trigger] self.qp@[i] == -1 || (1
                <= self.qp@[i] <= self.n && self.pq@[self.qp@[i] as int] == i) by {
                if i != min {
                    assert(mid.qp@[i] == -1 || (1 <= mid.qp@[i] <= mid.n && mid.pq@[mid.qp@[i] as int]
                        == i));
                }
            }
            assert forall|j: int| 2 <= j <= self.n && j / 2 != 1 implies #[trigger] self.pair_ok(
                j,
            ) by {
                assert(prev.pair_ok(j));
                assert(mid.qp@[mid.pq@[j] as int] == j);
                assert(mid.qp@[mid.pq@[j / 2] as int] == j / 2);
            }
        }
        self.sink(1);
        Ok(min as usize)
    }

    /// Gives the queued index `i` the priority `key`. It is refused, and the queue left as
    /// it was, when `i` is not below the capacity or is not queued.
    pub fn change(&mut self, i: usize, key: u64) -> (r: Result<(), PqError>)
        requires
            old(self).wf(),
        ensures
            final(self).wf(),
            final(self).capacity() == old(self).capacity(),
            match r {
                Ok(()) => {
                    &&& old(self)@.contains_key(i as int)
                    &&& final(self)@ == old(self)@.insert(i as int, key)
                },
                Err(e) => {
                    &&& *final(self) == *old(self)
                    &&& e == if i >= old(self).capacity() {
                        PqError::OutOfRange
                    } else {
                        PqError::NotPresent
                    }
                    &&& !old(self)@.contains_key(i as int)
                },
            },
    {
        if i >= self.max_n as usize {
            return Err(PqError::OutOfRange);
        }
        if self.qp[i] == -1 {
            return Err(PqError::NotPresent);
        }
        self.change_key(i, key);
        Ok(())
    }

    fn change_key(&mut self, i: usize, key: u64)
        requires
            old(self).wf(),
            old(self)@.contains_key(i as int),
        ensures
            final(self).wf(),
            final(self).max_n == old(self).max_n,
            final(self)@ == old(self)@.insert(i as int, key),
    {
        let ghost prev = *self;
        let k = self.qp[i];
        self.keys[i] = key;
        let ghost mid = *self;
        proof {
            assert(self@ =~= prev@.insert(i as int, key));
            assert(self@.dom() =~= prev@.dom());
            assert(prev.pq@[k as int] == i);
            assert forall|j: int| 2 <= j <= self.n && j != k && j / 2 != k implies #[trigger] self.pair_ok(
                j,
            ) by {
                assert(prev.pair_ok(j));
                assert(prev.qp@[prev.pq@[j] as int] == j);
                assert(prev.qp@[prev.pq@[j / 2] as int] == j / 2);
            }
            assert forall|j: int| 4 <= j <= self.n && j / 2 == k implies #[trigger] self.grand_ok(
                j,
            ) by {
                assert(prev.pair_ok(j));
                assert(prev.pair_ok(k as int));
                assert(prev.qp@[prev.pq@[j] as int] == j);
                assert(prev.qp@[prev.pq@[k / 2] as int] == k / 2);
            }
            if key <= prev.keys@[i as int] {
                assert forall|j: int| 2 <= j <= self.n && j != k implies #[trigger] self.pair_ok(
                    j,
                ) by {
                    if j / 2 == k {
                        assert(prev.pair_ok(j));
                        assert(prev.qp@[prev.pq@[j] as int] == j);
                    }
                }
                assert(self.swim_pre(k as int));
            } else {
                if k > 1 {
                    assert(prev.pair_ok(k as int));
                    assert(prev.qp@[prev.pq@[k / 2] as int] == k / 2);
                }
                assert(self.parent_ok(k as int));
            }
        }
        self.swim(k);
        let k2 = self.qp[i];
        proof {
            if mid.swim_pre(k as int) {
                assert forall|j: int| 2 <= j <= self.n && j / 2 != k2 implies #[trigger] self.pair_ok(
                    j,
                ) by {}
                assert forall|j: int| 4 <= j <= self.n && j / 2 == k2 implies #[trigger] self.grand_ok(
                    j,
                ) by {
                    assert(self.pair_ok(j));
                    assert(self.pair_ok(j / 2));
                }
            } else {
                assert(k2 == k);
                assert forall|j: int| 2 <= j <= self.n && j / 2 != k2 implies #[trigger] self.pair_ok(
                    j,
                ) by {}
            }
        }
        self.sink(k2);
    }
}

} // verus!
